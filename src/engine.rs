//! Host execution of the warp kernel over exact integer costs: the same
//! dispatches, diamonds, lanes and ring diagonal as on the device, one lane
//! after another in each lock-step.
use vstd::prelude::*;
use vstd::arithmetic::div_mod::lemma_fundamental_div_mod_converse;
use crate::cost::CellCost;
use crate::ring::{GpuMatrix, slot_of, ring_slot, diagonal_len};
use crate::launch::pair_address;
use crate::schedule::{RowDispatch, row_matches, lead_tile_a, row_diamonds, schedule_rows};
use crate::wavefront::{
    dp, key, front_ok, in_grid, lemma_key_of, lemma_front_read, lemma_front_write,
    lemma_front_same_done, lemma_step_gap, lemma_dp_unfold, lemma_tile_gap, lemma_row_gap,
    lemma_front_init, lemma_front_final,
};

verus! {

/// Bounds under which the engine's index arithmetic cannot overflow.
pub open spec fn engine_sizes_ok(pa: int, pb: int, w: int) -> bool {
    &&& w > 0
    &&& pa > 0
    &&& pb > 0
    &&& pa % w == 0
    &&& pb % w == 0
    &&& pa <= 0x1_0000_0000_0000
    &&& pb <= 0x1_0000_0000_0000
}

/// The measure can update every cell of a `pa` by `pb` matrix.
pub open spec fn admits_all<M: CellCost>(m: M, pa: int, pb: int) -> bool {
    forall|i: int, j: int| in_grid(i, j, pa, pb) ==> #[trigger] m.admits(i, j)
}

/// Column, inside the diamond, of the cell of lane 0 at step `d` (steps
/// start at 2); lane `l` takes the column after lane `l - 1`.
pub open spec fn first_lane_col(d: int, w: int) -> int {
    if d <= w + 1 { 0 } else { d - w - 1 }
}

/// Number of active lanes at step `d` of a diamond.
pub open spec fn active_lanes(d: int, w: int) -> int {
    if d <= w + 1 { d - 1 } else { 2 * w + 1 - d }
}

pub open spec fn min_int(a: int, b: int) -> int {
    if a <= b { a } else { b }
}

/// One active lane of one step: reads the three neighbours of the cell
/// `(i, j)` on the line `k == j - i`, and writes the cell.
fn warp_lane<M: CellCost>(
    matrix: &mut GpuMatrix<u64>,
    m: &M,
    d_row: u64,
    k: i64,
    i: u64,
    j: u64,
    a: &Vec<i32>,
    a_offset: usize,
    b: &Vec<i32>,
    b_offset: usize,
    Ghost(pa): Ghost<int>,
    Ghost(pb): Ghost<int>,
    Ghost(w): Ghost<int>,
)
    requires
        old(matrix).wf(),
        w > 0,
        in_grid(i as int, j as int, pa, pb),
        k == j - i,
        2 <= d_row <= 0x1_0000_0000_0000_0000,
        old(matrix).ring_len() > pa + pb + 1,
        a_offset + pa <= a@.len(),
        b_offset + pb <= b@.len(),
        admits_all(*m, pa, pb),
        front_ok(
            *m,
            a@.skip(a_offset as int),
            b@.skip(b_offset as int),
            pa,
            pb,
            w,
            old(matrix).cells(),
            old(matrix).offset(),
            old(matrix).ring_len(),
            key(i as int, j as int, w),
        ),
    ensures
        final(matrix).wf(),
        final(matrix).offset() == old(matrix).offset(),
        final(matrix).ring_len() == old(matrix).ring_len(),
        final(matrix).cells().len() == old(matrix).cells().len(),
        forall|t: int|
            0 <= t < old(matrix).cells().len() && !(old(matrix).offset() <= t < old(matrix).offset()
                + old(matrix).ring_len()) ==> #[trigger] final(matrix).cells()[t] == old(matrix).cells()[t],
        ({
            let p = key(i as int, j as int, w);
            front_ok(
                *m,
                a@.skip(a_offset as int),
                b@.skip(b_offset as int),
                pa,
                pb,
                w,
                final(matrix).cells(),
                final(matrix).offset(),
                final(matrix).ring_len(),
                (p.0, p.1, p.2, p.3 + 1),
            )
        }),
{
    let ghost sa = a@.skip(a_offset as int);
    let ghost sb = b@.skip(b_offset as int);
    proof {
        lemma_front_read(*m, sa, sb, pa, pb, w, matrix.cells(), matrix.offset(), matrix.ring_len(), i as int, j as int);
    }
    let x = matrix.get_diagonal_cell(d_row - 1, k - 1);
    let y = matrix.get_diagonal_cell(d_row - 2, k);
    let z = matrix.get_diagonal_cell(d_row - 1, k + 1);
    let a_len = a.len();
    let b_len = b.len();
    assert(i < a_len && j < b_len);
    let value = m.cell(x, y, z, i as usize, j as usize, a, a_offset, b, b_offset);
    proof {
        lemma_dp_unfold(*m, sa, sb, i as int, j as int);
        assert(x == dp(*m, sa, sb, i as int, j - 1));
        assert(y == dp(*m, sa, sb, i - 1, j - 1));
        assert(z == dp(*m, sa, sb, i - 1, j as int));
        assert(value == dp(*m, sa, sb, i as int, j as int));
        lemma_front_write(*m, sa, sb, pa, pb, w, matrix.cells(), matrix.offset(), matrix.ring_len(), i as int, j as int);
    }
    matrix.set_diagonal_cell(d_row, k, value);
}

/// Fills the `w` by `w` diamond whose top-left cell is `(a_start, b_start)`:
/// the host counterpart of the warp kernel's inner loop, with all lanes of a
/// step run before the next step, as the device's barrier orders them.
#[verifier::rlimit(50)]
fn warp_kernel_inner<M: CellCost>(
    matrix: &mut GpuMatrix<u64>,
    m: &M,
    d_offset: u64,
    a_start: u64,
    b_start: u64,
    diag_mid: i64,
    diag_count: u64,
    w: u64,
    a: &Vec<i32>,
    a_offset: usize,
    b: &Vec<i32>,
    b_offset: usize,
    Ghost(pa): Ghost<int>,
    Ghost(pb): Ghost<int>,
    Ghost(ta): Ghost<int>,
    Ghost(tb): Ghost<int>,
    Ghost(a_tiles): Ghost<int>,
    Ghost(b_tiles): Ghost<int>,
)
    requires
        old(matrix).wf(),
        engine_sizes_ok(pa, pb, w as int),
        pa == w * a_tiles,
        pb == w * b_tiles,
        d_offset <= 0x4_0000_0000_0000,
        0 <= ta,
        0 <= tb,
        a_start == ta * w,
        b_start == tb * w,
        a_start + w <= pa,
        b_start + w <= pb,
        diag_mid == b_start - a_start,
        diag_count == 2 * w + 1,
        old(matrix).ring_len() > pa + pb + 1,
        a_offset + pa <= a@.len(),
        b_offset + pb <= b@.len(),
        admits_all(*m, pa, pb),
        front_ok(
            *m,
            a@.skip(a_offset as int),
            b@.skip(b_offset as int),
            pa,
            pb,
            w as int,
            old(matrix).cells(),
            old(matrix).offset(),
            old(matrix).ring_len(),
            (ta + tb, tb, 0, 0),
        ),
    ensures
        final(matrix).wf(),
        final(matrix).offset() == old(matrix).offset(),
        final(matrix).ring_len() == old(matrix).ring_len(),
        final(matrix).cells().len() == old(matrix).cells().len(),
        forall|t: int|
            0 <= t < old(matrix).cells().len() && !(old(matrix).offset() <= t < old(matrix).offset()
                + old(matrix).ring_len()) ==> #[trigger] final(matrix).cells()[t] == old(matrix).cells()[t],
        front_ok(
            *m,
            a@.skip(a_offset as int),
            b@.skip(b_offset as int),
            pa,
            pb,
            w as int,
            final(matrix).cells(),
            final(matrix).offset(),
            final(matrix).ring_len(),
            (ta + tb, tb, 2 * w - 1, w as int),
        ),
{
    let ghost sa = a@.skip(a_offset as int);
    let ghost sb = b@.skip(b_offset as int);
    let ghost off = matrix.offset();
    let ghost len = matrix.ring_len();
    let ghost cells0 = matrix.cells();
    let ghost r = ta + tb;
    let ghost wi = w as int;

    let mut i = a_start;
    let mut j = b_start;
    let mut s = diag_mid;
    let mut e = diag_mid;
    let mut d: u64 = 2;
    while d < diag_count
        invariant
            matrix.wf(),
            matrix.offset() == off,
            matrix.ring_len() == len,
            matrix.cells().len() == cells0.len(),
            forall|t: int|
                0 <= t < cells0.len() && !(off <= t < off + len) ==> #[trigger] matrix.cells()[t]
                    == cells0[t],
            engine_sizes_ok(pa, pb, wi),
            wi == w,
            pa == w * a_tiles,
            pb == w * b_tiles,
            d_offset <= 0x4_0000_0000_0000,
            a_start == ta * w,
            b_start == tb * w,
            a_start + w <= pa,
            b_start + w <= pb,
            0 <= ta,
            0 <= tb,
            r == ta + tb,
            diag_mid == b_start - a_start,
            diag_count == 2 * w + 1,
            len > pa + pb + 1,
            a_offset + pa <= a@.len(),
            b_offset + pb <= b@.len(),
            sa == a@.skip(a_offset as int),
            sb == b@.skip(b_offset as int),
            admits_all(*m, pa, pb),
            2 <= d <= diag_count,
            d <= w + 1 ==> (i == a_start + d - 2 && j == b_start && s == diag_mid - (d - 2) && e
                == diag_mid + (d - 2)),
            d > w + 1 ==> (i == a_start + w - 1 && j == b_start + d - w - 1 && s == diag_mid + d - 2
                * w && e == diag_mid + 2 * w - d),
            front_ok(
                *m,
                sa,
                sb,
                pa,
                pb,
                wi,
                matrix.cells(),
                off,
                len,
                (r, tb, d - 2, first_lane_col(d as int, wi)),
            ),
        decreases diag_count - d,
    {
        let mut warp: u64 = 0;
        while warp < w
            invariant
                matrix.wf(),
                matrix.offset() == off,
                matrix.ring_len() == len,
                matrix.cells().len() == cells0.len(),
                forall|t: int|
                    0 <= t < cells0.len() && !(off <= t < off + len) ==> #[trigger] matrix.cells()[t]
                        == cells0[t],
                engine_sizes_ok(pa, pb, wi),
                wi == w,
                pa == w * a_tiles,
                pb == w * b_tiles,
                d_offset <= 0x4_0000_0000_0000,
                a_start == ta * w,
                b_start == tb * w,
                a_start + w <= pa,
                b_start + w <= pb,
                0 <= ta,
                0 <= tb,
                r == ta + tb,
                diag_mid == b_start - a_start,
                diag_count == 2 * w + 1,
                len > pa + pb + 1,
                a_offset + pa <= a@.len(),
                b_offset + pb <= b@.len(),
                sa == a@.skip(a_offset as int),
                sb == b@.skip(b_offset as int),
                admits_all(*m, pa, pb),
                2 <= d < diag_count,
                d <= w + 1 ==> (i == a_start + d - 2 && j == b_start && s == diag_mid - (d - 2) && e
                    == diag_mid + (d - 2)),
                d > w + 1 ==> (i == a_start + w - 1 && j == b_start + d - w - 1 && s == diag_mid + d
                    - 2 * w && e == diag_mid + 2 * w - d),
                warp <= w,
                front_ok(
                    *m,
                    sa,
                    sb,
                    pa,
                    pb,
                    wi,
                    matrix.cells(),
                    off,
                    len,
                    (
                        r,
                        tb,
                        d - 2,
                        first_lane_col(d as int, wi) + min_int(warp as int, active_lanes(d as int, wi)),
                    ),
                ),
            decreases w - warp,
        {
            let k: i64 = (warp * 2) as i64 + s;
            if k <= e {
                let ci = i - warp;
                let cj = j + warp;
                let ghost li = ci - a_start;
                let ghost lj = cj - b_start;
                proof {
                    assert(0 <= li < wi && 0 <= lj < wi && li + lj == d - 2);
                    assert(lj == first_lane_col(d as int, wi) + warp);
                    assert(warp < active_lanes(d as int, wi));
                    lemma_key_of(ci as int, cj as int, wi, ta, tb, li, lj);
                    assert(in_grid(ci as int, cj as int, pa, pb));
                }
                warp_lane(matrix, m, d_offset + d, k, ci, cj, a, a_offset, b, b_offset, Ghost(pa), Ghost(pb), Ghost(wi));
            } else {
                proof {
                    assert(warp >= active_lanes(d as int, wi));
                }
            }
            warp = warp + 1;
        }
        proof {
            lemma_step_gap(pa, pb, wi, a_tiles, b_tiles, r, tb as int, d - 2);
            lemma_front_same_done(
                *m,
                sa,
                sb,
                pa,
                pb,
                wi,
                matrix.cells(),
                off,
                len,
                (r, tb, d - 2, first_lane_col(d as int, wi) + active_lanes(d as int, wi)),
                (r, tb, d - 1, first_lane_col(d + 1, wi)),
            );
        }
        if d <= w {
            i = i + 1;
            s = s - 1;
            e = e + 1;
        } else {
            j = j + 1;
            s = s + 1;
            e = e - 1;
        }
        d = d + 1;
    }
}

/// Fills diamond `diamond_id` of the row `row` of one pair: the host
/// counterpart of the warp kernel's outer part, which places the diamond.
#[verifier::rlimit(30)]
fn warp_kernel<M: CellCost>(
    matrix: &mut GpuMatrix<u64>,
    m: &M,
    row: &RowDispatch,
    diamond_id: u64,
    w: u64,
    a_len: u64,
    b_len: u64,
    a: &Vec<i32>,
    a_offset: usize,
    b: &Vec<i32>,
    b_offset: usize,
    Ghost(a_tiles): Ghost<int>,
    Ghost(b_tiles): Ghost<int>,
)
    requires
        old(matrix).wf(),
        engine_sizes_ok(a_len as int, b_len as int, w as int),
        a_len == w * a_tiles,
        b_len == w * b_tiles,
        1 <= a_tiles <= b_tiles,
        row_matches(*row, row.row as int, a_tiles, b_tiles, w as int),
        row.row < a_tiles + b_tiles - 1,
        diamond_id < row.diamonds_count,
        old(matrix).ring_len() > a_len + b_len + 1,
        a_offset + a_len <= a@.len(),
        b_offset + b_len <= b@.len(),
        admits_all(*m, a_len as int, b_len as int),
        front_ok(
            *m,
            a@.skip(a_offset as int),
            b@.skip(b_offset as int),
            a_len as int,
            b_len as int,
            w as int,
            old(matrix).cells(),
            old(matrix).offset(),
            old(matrix).ring_len(),
            (row.row as int, row.b_start / w + diamond_id, 0, 0),
        ),
    ensures
        final(matrix).wf(),
        final(matrix).offset() == old(matrix).offset(),
        final(matrix).ring_len() == old(matrix).ring_len(),
        final(matrix).cells().len() == old(matrix).cells().len(),
        forall|t: int|
            0 <= t < old(matrix).cells().len() && !(old(matrix).offset() <= t < old(matrix).offset()
                + old(matrix).ring_len()) ==> #[trigger] final(matrix).cells()[t] == old(matrix).cells()[t],
        front_ok(
            *m,
            a@.skip(a_offset as int),
            b@.skip(b_offset as int),
            a_len as int,
            b_len as int,
            w as int,
            final(matrix).cells(),
            final(matrix).offset(),
            final(matrix).ring_len(),
            (row.row as int, row.b_start / w + diamond_id + 1, 0, 0),
        ),
{
    let ghost r = row.row as int;
    let ghost lead = lead_tile_a(r, a_tiles);
    let ghost ta = lead - diamond_id;
    let ghost tb = r - lead + diamond_id;
    proof {
        assert(row.b_start == w * (r - lead));
        assert(row.b_start / w == r - lead) by (nonlinear_arith)
            requires row.b_start == w * (r - lead), w > 0;
        assert(w * ta == w * lead - diamond_id * w && w * tb == w * (r - lead) + diamond_id * w)
            by (nonlinear_arith)
            requires ta == lead - diamond_id, tb == r - lead + diamond_id;
        assert(w * ta + w <= a_len && w * tb + w <= b_len) by (nonlinear_arith)
            requires
                ta + 1 <= a_tiles,
                tb + 1 <= b_tiles,
                a_len == w * a_tiles,
                b_len == w * b_tiles,
                w > 0;
        assert(diamond_id * w <= row.a_start) by (nonlinear_arith)
            requires diamond_id <= lead, row.a_start == w * lead, w > 0;
        assert(row.a_start <= a_len && row.b_start <= b_len) by (nonlinear_arith)
            requires
                row.a_start == w * lead,
                row.b_start == w * (r - lead),
                lead <= a_tiles,
                r - lead <= b_tiles,
                a_len == w * a_tiles,
                b_len == w * b_tiles,
                w > 0;
        assert(row.first_coord == row.b_start - row.a_start - w);
        assert(row.b_start + diamond_id * w == w * tb);
        assert(row.a_start - diamond_id * w == w * ta);
        assert(w <= a_len) by (nonlinear_arith)
            requires a_len == w * a_tiles, a_tiles >= 1, w > 0;
        assert(w * ta >= 0 && w * tb >= 0) by (nonlinear_arith)
            requires ta >= 0, tb >= 0, w > 0;
        assert(row.row * w <= a_len + b_len) by (nonlinear_arith)
            requires
                row.row < a_tiles + b_tiles - 1,
                a_len == w * a_tiles,
                b_len == w * b_tiles,
                w > 0;
    }
    let diag_start = row.first_coord + ((diamond_id * w) as i64) * 2;
    let d_a_start = row.a_start - diamond_id * w;
    let d_b_start = row.b_start + diamond_id * w;
    let alen = a_len - d_a_start;
    let blen = b_len - d_b_start;
    let diag_count = if w * 2 + 1 <= alen + blen + 1 { w * 2 + 1 } else { alen + blen + 1 };
    proof {
        assert(d_a_start == ta * w && d_b_start == tb * w);
    }
    warp_kernel_inner(
        matrix,
        m,
        row.row * w,
        d_a_start,
        d_b_start,
        diag_start + (w as i64),
        diag_count,
        w,
        a,
        a_offset,
        b,
        b_offset,
        Ghost(a_len as int),
        Ghost(b_len as int),
        Ghost(ta),
        Ghost(tb),
        Ghost(a_tiles),
        Ghost(b_tiles),
    );
    proof {
        lemma_tile_gap(a_len as int, b_len as int, w as int, a_tiles, b_tiles, r, tb);
        lemma_front_same_done(
            *m,
            a@.skip(a_offset as int),
            b@.skip(b_offset as int),
            a_len as int,
            b_len as int,
            w as int,
            matrix.cells(),
            matrix.offset(),
            matrix.ring_len(),
            (r, tb, 2 * w - 1, w as int),
            (r, tb + 1, 0, 0),
        );
    }
}

/// The rows of `rows` are the schedule of an `a_tiles` by `b_tiles` grid.
pub open spec fn is_schedule(rows: Seq<RowDispatch>, a_tiles: int, b_tiles: int, w: int) -> bool {
    &&& rows.len() == a_tiles + b_tiles - 1
    &&& forall|i: int| 0 <= i < rows.len() ==> row_matches(#[trigger] rows[i], i, a_tiles, b_tiles, w)
}

/// Runs every dispatch of the schedule on one pair, whose ring segment is
/// the current one of `matrix`.
#[verifier::rlimit(60)]
fn run_pair<M: CellCost>(
    matrix: &mut GpuMatrix<u64>,
    m: &M,
    rows: &Vec<RowDispatch>,
    w: u64,
    a_len: u64,
    b_len: u64,
    a: &Vec<i32>,
    a_offset: usize,
    b: &Vec<i32>,
    b_offset: usize,
    Ghost(a_tiles): Ghost<int>,
    Ghost(b_tiles): Ghost<int>,
)
    requires
        old(matrix).wf(),
        engine_sizes_ok(a_len as int, b_len as int, w as int),
        a_len == w * a_tiles,
        b_len == w * b_tiles,
        1 <= a_tiles <= b_tiles,
        is_schedule(rows@, a_tiles, b_tiles, w as int),
        old(matrix).ring_len() > a_len + b_len + 1,
        a_offset + a_len <= a@.len(),
        b_offset + b_len <= b@.len(),
        admits_all(*m, a_len as int, b_len as int),
        front_ok(
            *m,
            a@.skip(a_offset as int),
            b@.skip(b_offset as int),
            a_len as int,
            b_len as int,
            w as int,
            old(matrix).cells(),
            old(matrix).offset(),
            old(matrix).ring_len(),
            (0, 0, 0, 0),
        ),
    ensures
        final(matrix).wf(),
        final(matrix).offset() == old(matrix).offset(),
        final(matrix).ring_len() == old(matrix).ring_len(),
        final(matrix).cells().len() == old(matrix).cells().len(),
        forall|t: int|
            0 <= t < old(matrix).cells().len() && !(old(matrix).offset() <= t < old(matrix).offset()
                + old(matrix).ring_len()) ==> #[trigger] final(matrix).cells()[t] == old(matrix).cells()[t],
        final(matrix).cells()[final(matrix).offset() + slot_of(b_len - a_len, final(matrix).ring_len())]
            == dp(*m, a@.skip(a_offset as int), b@.skip(b_offset as int), a_len - 1, b_len - 1),
{
    let ghost sa = a@.skip(a_offset as int);
    let ghost sb = b@.skip(b_offset as int);
    let ghost off = matrix.offset();
    let ghost len = matrix.ring_len();
    let ghost cells0 = matrix.cells();
    let ghost wi = w as int;
    let mut ri: usize = 0;
    while ri < rows.len()
        invariant
            matrix.wf(),
            matrix.offset() == off,
            matrix.ring_len() == len,
            matrix.cells().len() == cells0.len(),
            forall|t: int|
                0 <= t < cells0.len() && !(off <= t < off + len) ==> #[trigger] matrix.cells()[t]
                    == cells0[t],
            engine_sizes_ok(a_len as int, b_len as int, wi),
            wi == w,
            a_len == w * a_tiles,
            b_len == w * b_tiles,
            1 <= a_tiles <= b_tiles,
            is_schedule(rows@, a_tiles, b_tiles, wi),
            len > a_len + b_len + 1,
            a_offset + a_len <= a@.len(),
            b_offset + b_len <= b@.len(),
            sa == a@.skip(a_offset as int),
            sb == b@.skip(b_offset as int),
            admits_all(*m, a_len as int, b_len as int),
            ri <= rows@.len(),
            front_ok(
                *m,
                sa,
                sb,
                a_len as int,
                b_len as int,
                wi,
                matrix.cells(),
                off,
                len,
                (ri as int, ri - lead_tile_a(ri as int, a_tiles), 0, 0),
            ),
        decreases rows@.len() - ri,
    {
        let row = rows[ri];
        let ghost r = ri as int;
        let ghost lead = lead_tile_a(r, a_tiles);
        proof {
            assert(row_matches(row, r, a_tiles, b_tiles, wi));
            assert(row.b_start / w == r - lead) by (nonlinear_arith)
                requires row.b_start == w * (r - lead), w > 0;
        }
        let mut t: u64 = 0;
        while t < row.diamonds_count
            invariant
                matrix.wf(),
                matrix.offset() == off,
                matrix.ring_len() == len,
                matrix.cells().len() == cells0.len(),
                forall|t2: int|
                    0 <= t2 < cells0.len() && !(off <= t2 < off + len) ==> #[trigger] matrix.cells()[t2]
                        == cells0[t2],
                engine_sizes_ok(a_len as int, b_len as int, wi),
                wi == w,
                a_len == w * a_tiles,
                b_len == w * b_tiles,
                1 <= a_tiles <= b_tiles,
                row_matches(row, r, a_tiles, b_tiles, wi),
                r == row.row,
                r < a_tiles + b_tiles - 1,
                row.b_start / w == r - lead,
                len > a_len + b_len + 1,
                a_offset + a_len <= a@.len(),
                b_offset + b_len <= b@.len(),
                sa == a@.skip(a_offset as int),
                sb == b@.skip(b_offset as int),
                admits_all(*m, a_len as int, b_len as int),
                t <= row.diamonds_count,
                front_ok(
                    *m,
                    sa,
                    sb,
                    a_len as int,
                    b_len as int,
                    wi,
                    matrix.cells(),
                    off,
                    len,
                    (r, r - lead + t, 0, 0),
                ),
            decreases row.diamonds_count - t,
        {
            warp_kernel(matrix, m, &row, t, w, a_len, b_len, a, a_offset, b, b_offset, Ghost(a_tiles), Ghost(b_tiles));
            t = t + 1;
        }
        proof {
            lemma_row_gap(a_len as int, b_len as int, wi, a_tiles, b_tiles, r);
            lemma_front_same_done(
                *m,
                sa,
                sb,
                a_len as int,
                b_len as int,
                wi,
                matrix.cells(),
                off,
                len,
                (r, r - lead + row_diamonds(r, a_tiles, b_tiles), 0, 0),
                (r + 1, r + 1 - lead_tile_a(r + 1, a_tiles), 0, 0),
            );
        }
        ri = ri + 1;
    }
    proof {
        lemma_front_final(*m, sa, sb, a_len as int, b_len as int, wi, a_tiles, b_tiles, matrix.cells(), off, len);
    }
}

/// Index of cell `t` of segment `p` in ring diagonals of `len` cells each.
pub open spec fn seg_index(p: int, t: int, len: int) -> int {
    p * len + t
}

/// The cell value that a fresh ring segment holds at slot `t`.
pub open spec fn initial_cell<T>(t: int, zero: T, init_val: T) -> T {
    if t == 0 { zero } else { init_val }
}

/// Fresh ring diagonals of `pairs` pairs: in each segment of `diag_len`
/// cells, `zero` in the first cell (the corner of the pair's cost matrix)
/// and `init_val` in the others.
pub fn initial_diagonal<T: Copy>(pairs: usize, diag_len: usize, zero: T, init_val: T) -> (r: Vec<T>)
    requires
        diag_len > 0,
        pairs * diag_len <= usize::MAX,
    ensures
        r@.len() == pairs * diag_len,
        forall|p: int, t: int|
            0 <= p < pairs && 0 <= t < diag_len ==> #[trigger] r@[seg_index(p, t, diag_len as int)]
                == initial_cell(t, zero, init_val),
{
    let mut diagonal: Vec<T> = Vec::new();
    let mut p: usize = 0;
    while p < pairs
        invariant
            p <= pairs,
            diag_len > 0,
            pairs * diag_len <= usize::MAX,
            diagonal@.len() == p * diag_len,
            forall|p2: int, t: int|
                0 <= p2 < p && 0 <= t < diag_len ==> #[trigger] diagonal@[seg_index(p2, t, diag_len as int)]
                    == initial_cell(t, zero, init_val),
        decreases pairs - p,
    {
        let ghost before = diagonal@;
        let mut t: usize = 0;
        proof {
            assert((p + 1) * diag_len <= pairs * diag_len) by (nonlinear_arith)
                requires p + 1 <= pairs;
            assert((p + 1) * diag_len == p * diag_len + diag_len) by (nonlinear_arith);
        }
        while t < diag_len
            invariant
                p < pairs,
                t <= diag_len,
                (p + 1) * diag_len <= usize::MAX,
                (p + 1) * diag_len == p * diag_len + diag_len,
                before.len() == p * diag_len,
                diagonal@.len() == p * diag_len + t,
                forall|i: int| 0 <= i < before.len() ==> #[trigger] diagonal@[i] == before[i],
                forall|t2: int|
                    0 <= t2 < t ==> #[trigger] diagonal@[seg_index(p as int, t2, diag_len as int)]
                        == initial_cell(t2, zero, init_val),
            decreases diag_len - t,
        {
            diagonal.push(if t == 0 { zero } else { init_val });
            t = t + 1;
        }
        proof {
            assert forall|p2: int, t2: int|
                0 <= p2 < p + 1 && 0 <= t2 < diag_len implies #[trigger] diagonal@[seg_index(
                    p2,
                    t2,
                    diag_len as int,
                )] == initial_cell(t2, zero, init_val) by {
                if p2 < p {
                    assert(seg_index(p2, t2, diag_len as int) < p * diag_len) by (nonlinear_arith)
                        requires p2 < p, t2 < diag_len;
                    assert(seg_index(p2, t2, diag_len as int) >= 0) by (nonlinear_arith)
                        requires p2 >= 0, t2 >= 0, diag_len > 0;
                }
            }
        }
        p = p + 1;
    }
    diagonal
}

/// Value of the pair `(i, j)` of a batch: the last cell of the matrix of
/// series `i` of `a_pack` against series `j` of `b_pack`.
pub open spec fn pair_value<M: CellCost>(
    m: M,
    a_pack: Seq<i32>,
    b_pack: Seq<i32>,
    padded_a_len: int,
    padded_b_len: int,
    i: int,
    j: int,
) -> u64 {
    dp(m, a_pack.skip(i * padded_a_len), b_pack.skip(j * padded_b_len), padded_a_len - 1, padded_b_len - 1)
}

/// Runs the whole schedule on every pair of a batch of packed series and
/// reads each pair's result from its ring segment. The pairs run one after
/// another: on the device they share each dispatch, but their segments are
/// disjoint, so their order does not change what each one computes.
#[verifier::rlimit(40)]
pub fn run_batch<M: CellCost>(
    m: &M,
    a_pack: &Vec<i32>,
    b_pack: &Vec<i32>,
    a_count: u64,
    b_count: u64,
    padded_a_len: u64,
    padded_b_len: u64,
    w: u64,
) -> (r: Vec<Vec<u64>>)
    requires
        engine_sizes_ok(padded_a_len as int, padded_b_len as int, w as int),
        padded_a_len <= padded_b_len,
        a_count >= 1,
        b_count >= 1,
        a_pack@.len() == a_count * padded_a_len,
        b_pack@.len() == b_count * padded_b_len,
        admits_all(*m, padded_a_len as int, padded_b_len as int),
        a_count * b_count * (4 * (padded_b_len + 1)) <= usize::MAX,
    ensures
        r@.len() == a_count,
        forall|i: int| 0 <= i < a_count ==> (#[trigger] r@[i])@.len() == b_count,
        forall|i: int, j: int|
            0 <= i < a_count && 0 <= j < b_count ==> #[trigger] r@[i]@[j] == pair_value(
                *m,
                a_pack@,
                b_pack@,
                padded_a_len as int,
                padded_b_len as int,
                i,
                j,
            ),
{
    let a_total = a_pack.len();
    let b_total = b_pack.len();
    let ghost pa = padded_a_len as int;
    let ghost pb = padded_b_len as int;
    let ghost a_tiles = pa / (w as int);
    let ghost b_tiles = pb / (w as int);
    proof {
        assert(pa == w * a_tiles && pb == w * b_tiles && 1 <= a_tiles <= b_tiles) by (nonlinear_arith)
            requires
                a_tiles == pa / (w as int),
                b_tiles == pb / (w as int),
                pa % (w as int) == 0,
                pb % (w as int) == 0,
                w > 0,
                0 < pa <= pb;
    }
    let rows = schedule_rows(padded_a_len, padded_b_len, w);
    let diag_len = diagonal_len(padded_a_len, padded_b_len);
    let ghost len = diag_len as int;
    proof {
        let c = 4 * (padded_b_len + 1);
        assert(a_count * b_count <= a_count * b_count * c && a_count * b_count >= 1) by (nonlinear_arith)
            requires c >= 1, a_count >= 1, b_count >= 1;
        assert((a_count * b_count) * len <= a_count * b_count * c) by (nonlinear_arith)
            requires len <= c, a_count >= 1, b_count >= 1;
        assert((a_count * b_count) * len >= len) by (nonlinear_arith)
            requires len >= 1, a_count >= 1, b_count >= 1;
    }
    let pairs = a_count * b_count;
    let init_val = m.init_val();
    let diagonal = initial_diagonal(pairs as usize, diag_len as usize, 0u64, init_val);
    let mut matrix = GpuMatrix::new(diagonal, 0, (diag_len - 1) as usize);
    let ghost k_res = pb - pa;
    let mut p: u64 = 0;
    while p < pairs
        invariant
            matrix.wf(),
            matrix.ring_len() == len,
            len == diag_len,
            len > pa + pb + 1,
            matrix.cells().len() == pairs * len,
            pairs == a_count * b_count,
            pairs * len <= usize::MAX,
            pa == padded_a_len,
            pb == padded_b_len,
            k_res == pb - pa,
            engine_sizes_ok(pa, pb, w as int),
            pa == w * a_tiles,
            pb == w * b_tiles,
            1 <= a_tiles <= b_tiles,
            b_count >= 1,
            a_pack@.len() == a_count * padded_a_len,
            b_pack@.len() == b_count * padded_b_len,
            admits_all(*m, pa, pb),
            is_schedule(rows@, a_tiles, b_tiles, w as int),
            init_val == m.init_spec(),
            p <= pairs,
            a_total == a_pack@.len(),
            b_total == b_pack@.len(),
            forall|q: int|
                0 <= q < p ==> #[trigger] matrix.cells()[seg_index(q, slot_of(k_res, len), len)] == pair_value(
                    *m,
                    a_pack@,
                    b_pack@,
                    pa,
                    pb,
                    q / (b_count as int),
                    q % (b_count as int),
                ),
            forall|q: int, t: int|
                p <= q < pairs && 0 <= t < len ==> #[trigger] matrix.cells()[seg_index(q, t, len)]
                    == initial_cell(t, 0u64, init_val),
        decreases pairs - p,
    {
        proof {
            let ai = p / b_count;
            let bi = p % b_count;
            assert(bi < b_count);
            assert(ai < a_count && ai * pa + pa <= a_count * pa && bi * pb + pb <= b_count * pb) by (nonlinear_arith)
                requires
                    ai == p / b_count,
                    bi == p % b_count,
                    p < a_count * b_count,
                    b_count >= 1,
                    pa >= 0,
                    pb >= 0;
            assert(p * len + len <= pairs * len) by (nonlinear_arith)
                requires p < pairs, len >= 0;
            assert(ai * pa <= a_count * pa && bi * pb <= b_count * pb) by (nonlinear_arith)
                requires ai < a_count, bi < b_count, pa >= 0, pb >= 0;
        }
        let addr = pair_address(p, b_count, padded_a_len, padded_b_len, diag_len);
        let ghost cells_before = matrix.cells();
        matrix.set_offset(addr.diagonal_offset as usize);
        let ghost sa = a_pack@.skip(addr.a_offset as int);
        let ghost sb = b_pack@.skip(addr.b_offset as int);
        proof {
            assert(matrix.offset() == p * len);
            assert(addr.a_offset as usize as int == addr.a_offset);
            assert(addr.b_offset as usize as int == addr.b_offset);
            assert forall|t: int| 0 <= t < len implies #[trigger] matrix.cells()[p * len + t] == initial_cell(t, 0u64, init_val) by {
                assert(matrix.cells()[seg_index(p as int, t, len)] == initial_cell(t, 0u64, init_val));
            }
            lemma_front_init(*m, sa, sb, pa, pb, w as int, matrix.cells(), p * len, len);
        }
        run_pair(
            &mut matrix,
            m,
            &rows,
            w,
            padded_a_len,
            padded_b_len,
            a_pack,
            addr.a_offset as usize,
            b_pack,
            addr.b_offset as usize,
            Ghost(a_tiles),
            Ghost(b_tiles),
        );
        proof {
            let off = p * len;
            assert forall|q: int| 0 <= q < p + 1 implies #[trigger] matrix.cells()[seg_index(q, slot_of(k_res, len), len)]
                == pair_value(*m, a_pack@, b_pack@, pa, pb, q / (b_count as int), q % (b_count as int)) by {
                assert(0 <= slot_of(k_res, len) < len);
                if q < p {
                    let sl = slot_of(k_res, len);
                    assert(q * len + sl + 1 <= off) by (nonlinear_arith)
                        requires q < p, sl < len, off == p * len, len >= 0, q >= 0;
                    assert(q * len + sl >= 0) by (nonlinear_arith)
                        requires q >= 0, sl >= 0, len >= 0;
                    assert(matrix.cells()[seg_index(q, slot_of(k_res, len), len)] == cells_before[seg_index(q, slot_of(k_res, len), len)]);
                } else {
                    assert(q == p);
                }
            }
            assert forall|q: int, t: int|
                p + 1 <= q < pairs && 0 <= t < len implies #[trigger] matrix.cells()[seg_index(q, t, len)]
                    == initial_cell(t, 0u64, init_val) by {
                assert(q * len + t >= off + len) by (nonlinear_arith)
                    requires q >= p + 1, t >= 0, off == p * len, len >= 0;
                assert(q * len + t < pairs * len) by (nonlinear_arith)
                    requires q < pairs, t < len, len >= 0, q >= 0;
                assert(matrix.cells()[seg_index(q, t, len)] == cells_before[seg_index(q, t, len)]);
            }
        }
        p = p + 1;
    }
    let cells = matrix.into_cells();
    let slot = ring_slot(padded_b_len as i64 - padded_a_len as i64, diag_len - 1);
    let res = extract_pair_cells(&cells, a_count, b_count, diag_len, slot);
    proof {
        assert forall|i: int, j: int| 0 <= i < a_count && 0 <= j < b_count implies #[trigger] res@[i]@[j]
            == pair_value(*m, a_pack@, b_pack@, pa, pb, i, j) by {
            let q = i * b_count + j;
            assert(q < pairs) by (nonlinear_arith)
                requires q == i * b_count + j, i < a_count, j < b_count, pairs == a_count * b_count;
            lemma_fundamental_div_mod_converse(q, b_count as int, i, j);
        }
    }
    res
}

/// The cell at `slot` of the ring segment of each pair of an `a_count` by
/// `b_count` batch, as an `a_count` by `b_count` matrix.
pub fn extract_pair_cells<T: Copy>(cells: &Vec<T>, a_count: u64, b_count: u64, diag_len: u64, slot: u64) -> (r: Vec<
    Vec<T>,
>)
    requires
        slot < diag_len,
        a_count * b_count * diag_len <= cells@.len(),
    ensures
        r@.len() == a_count,
        forall|i: int| 0 <= i < a_count ==> (#[trigger] r@[i])@.len() == b_count,
        forall|i: int, j: int|
            0 <= i < a_count && 0 <= j < b_count ==> #[trigger] r@[i]@[j] == cells@[seg_index(
                i * b_count + j,
                slot as int,
                diag_len as int,
            )],
{
    let n = cells.len();
    let mut res: Vec<Vec<T>> = Vec::new();
    let mut i: u64 = 0;
    while i < a_count
        invariant
            i <= a_count,
            res@.len() == i,
            n == cells@.len(),
            slot < diag_len,
            a_count * b_count * diag_len <= n,
            forall|i2: int| 0 <= i2 < i ==> (#[trigger] res@[i2])@.len() == b_count,
            forall|i2: int, j2: int|
                0 <= i2 < i && 0 <= j2 < b_count ==> #[trigger] res@[i2]@[j2] == cells@[seg_index(
                    i2 * b_count + j2,
                    slot as int,
                    diag_len as int,
                )],
        decreases a_count - i,
    {
        let mut row: Vec<T> = Vec::new();
        let mut j: u64 = 0;
        while j < b_count
            invariant
                i < a_count,
                j <= b_count,
                row@.len() == j,
                n == cells@.len(),
                slot < diag_len,
                a_count * b_count * diag_len <= n,
                forall|j2: int|
                    0 <= j2 < j ==> #[trigger] row@[j2] == cells@[seg_index(
                        i * b_count + j2,
                        slot as int,
                        diag_len as int,
                    )],
            decreases b_count - j,
        {
            proof {
                let q = i * b_count + j;
                assert(q * diag_len + slot < a_count * b_count * diag_len && q <= q * diag_len) by (nonlinear_arith)
                    requires q == i * b_count + j, i < a_count, j < b_count, slot < diag_len, i >= 0, j >= 0;
            }
            let q = i * b_count + j;
            let v = cells[(q * diag_len + slot) as usize];
            row.push(v);
            j = j + 1;
        }
        res.push(row);
        i = i + 1;
    }
    res
}

} // verus!
