//! The cost matrix of a pair, the order in which the diamond wavefront fills
//! it, and what the ring diagonal holds at each point of that order.
use vstd::prelude::*;
use vstd::arithmetic::div_mod::{lemma_fundamental_div_mod, lemma_fundamental_div_mod_converse, lemma_div_is_ordered};
use crate::cost::{CellCost, prev_sample};
use crate::ring::{slot_of, lemma_slots_distinct};
use crate::schedule::{lead_tile_a, row_diamonds};

verus! {

/// Cell `(i, j)` of the cost matrix of the series `a` and `b` (0-based
/// samples), with the boundary row `i == -1` and column `j == -1`: the corner
/// is `0`, the other boundary cells are the measure's unreachable cost.
#[verifier::opaque]
pub open spec fn dp<M: CellCost>(m: M, a: Seq<i32>, b: Seq<i32>, i: int, j: int) -> u64
    decreases i + j + 2,
{
    if i < 0 && j < 0 {
        0
    } else if i < 0 || j < 0 {
        m.init_spec()
    } else {
        m.cell_spec(
            dp(m, a, b, i, j - 1),
            dp(m, a, b, i - 1, j - 1),
            dp(m, a, b, i - 1, j),
            i,
            j,
            a,
            b,
        )
    }
}

/// A point of the fill order: tile row, tile column, anti-diagonal inside
/// the tile, column inside the tile.
pub type Pos = (int, int, int, int);

pub open spec fn lex_lt(p: Pos, q: Pos) -> bool {
    ||| p.0 < q.0
    ||| (p.0 == q.0 && p.1 < q.1)
    ||| (p.0 == q.0 && p.1 == q.1 && p.2 < q.2)
    ||| (p.0 == q.0 && p.1 == q.1 && p.2 == q.2 && p.3 < q.3)
}

/// Where the cell `(i, j)` stands in the fill order of `w`-wide diamonds.
#[verifier::opaque]
pub open spec fn key(i: int, j: int, w: int) -> Pos {
    (i / w + j / w, j / w, i % w + j % w, j % w)
}

pub open spec fn in_grid(i: int, j: int, pa: int, pb: int) -> bool {
    0 <= i < pa && 0 <= j < pb
}

/// The cell `(i, j)` is filled before the point `p` of the fill order.
pub open spec fn done(i: int, j: int, pa: int, pb: int, w: int, p: Pos) -> bool {
    in_grid(i, j, pa, pb) && lex_lt(key(i, j, w), p)
}

/// First cell of the line `k` (`j - i == k`) of the matrix.
pub open spec fn first_i(k: int) -> int {
    if k < 0 { -k } else { 0 }
}

pub open spec fn first_j(k: int) -> int {
    if k < 0 { 0 } else { k }
}

/// At the point `p` of the fill order, the slot of every line of the ring
/// segment at `off` holds the last filled cell of that line, or the
/// line's boundary cell where none of it is filled.
pub open spec fn front_ok<M: CellCost>(
    m: M,
    a: Seq<i32>,
    b: Seq<i32>,
    pa: int,
    pb: int,
    w: int,
    cells: Seq<u64>,
    off: int,
    len: int,
    p: Pos,
) -> bool {
    &&& forall|i: int, j: int|
        #![trigger done(i, j, pa, pb, w, p)]
        done(i, j, pa, pb, w, p) && !done(i + 1, j + 1, pa, pb, w, p) ==> cells[off + slot_of(j - i, len)]
            == dp(m, a, b, i, j)
    &&& forall|k: int|
        #![trigger slot_of(k, len)]
        -pa <= k <= pb && !done(first_i(k), first_j(k), pa, pb, w, p) ==> cells[off + slot_of(k, len)]
            == dp(m, a, b, first_i(k) - 1, first_j(k) - 1)
}

proof fn lemma_split(i: int, w: int)
    requires
        i >= 0,
        w > 0,
    ensures
        i == w * (i / w) + i % w,
        0 <= i % w < w,
        i / w >= 0,
{
    lemma_fundamental_div_mod(i, w);
}

/// A cell below or right of another comes later in the fill order.
pub proof fn lemma_key_monotone(i1: int, j1: int, i2: int, j2: int, w: int)
    requires
        0 <= i1 <= i2,
        0 <= j1 <= j2,
        i1 != i2 || j1 != j2,
        w > 0,
    ensures
        lex_lt(key(i1, j1, w), key(i2, j2, w)),
{
    reveal(key);
    lemma_split(i1, w);
    lemma_split(i2, w);
    lemma_split(j1, w);
    lemma_split(j2, w);
    lemma_div_is_ordered(i1, i2, w);
    lemma_div_is_ordered(j1, j2, w);
    if i1 / w == i2 / w && j1 / w == j2 / w {
        assert(i1 % w <= i2 % w);
        assert(j1 % w <= j2 % w);
    }
}

/// Distinct cells have distinct places in the fill order.
pub proof fn lemma_key_injective(i1: int, j1: int, i2: int, j2: int, w: int)
    requires
        i1 >= 0,
        j1 >= 0,
        i2 >= 0,
        j2 >= 0,
        w > 0,
        key(i1, j1, w) == key(i2, j2, w),
    ensures
        i1 == i2,
        j1 == j2,
{
    reveal(key);
    lemma_split(i1, w);
    lemma_split(i2, w);
    lemma_split(j1, w);
    lemma_split(j2, w);
}

/// The place of a cell whose tile and offsets inside it are known.
pub proof fn lemma_key_of(i: int, j: int, w: int, ta: int, tb: int, li: int, lj: int)
    requires
        w > 0,
        0 <= li < w,
        0 <= lj < w,
        i == ta * w + li,
        j == tb * w + lj,
    ensures
        key(i, j, w) == (ta + tb, tb, li + lj, lj),
{
    reveal(key);
    lemma_fundamental_div_mod_converse(i, w, ta, li);
    lemma_fundamental_div_mod_converse(j, w, tb, lj);
}

/// One unfolding of `dp` at a cell of the matrix.
pub proof fn lemma_dp_unfold<M: CellCost>(m: M, a: Seq<i32>, b: Seq<i32>, i: int, j: int)
    requires
        i >= 0,
        j >= 0,
    ensures
        dp(m, a, b, i, j) == m.cell_spec(
            dp(m, a, b, i, j - 1),
            dp(m, a, b, i - 1, j - 1),
            dp(m, a, b, i - 1, j),
            i,
            j,
            a,
            b,
        ),
{
    reveal(dp);
}

/// The three neighbours that the cell at the point `p` reads hold their
/// cells of the matrix.
#[verifier::rlimit(40)]
pub proof fn lemma_front_read<M: CellCost>(
    m: M,
    a: Seq<i32>,
    b: Seq<i32>,
    pa: int,
    pb: int,
    w: int,
    cells: Seq<u64>,
    off: int,
    len: int,
    i: int,
    j: int,
)
    requires
        front_ok(m, a, b, pa, pb, w, cells, off, len, key(i, j, w)),
        in_grid(i, j, pa, pb),
        w > 0,
    ensures
        cells[off + slot_of(j - i - 1, len)] == dp(m, a, b, i, j - 1),
        cells[off + slot_of(j - i, len)] == dp(m, a, b, i - 1, j - 1),
        cells[off + slot_of(j - i + 1, len)] == dp(m, a, b, i - 1, j),
{
    let p = key(i, j, w);
    // the cell below (i, j - 1) and the cell right of (i - 1, j) come later
    lemma_key_monotone(i, j, i + 1, j, w);
    lemma_key_monotone(i, j, i, j + 1, w);
    assert(!done(i + 1, j, pa, pb, w, p));
    assert(!done(i, j + 1, pa, pb, w, p));
    assert(!done(i, j, pa, pb, w, p));
    if j >= 1 {
        lemma_key_monotone(i, j - 1, i, j, w);
        assert(done(i, j - 1, pa, pb, w, p));
        assert((j - 1) - i == j - i - 1);
    } else {
        assert(slot_of(j - i - 1, len) == slot_of(j - i - 1, len));
        assert(first_i(j - i - 1) == i + 1 && first_j(j - i - 1) == 0);
    }
    if i >= 1 {
        lemma_key_monotone(i - 1, j, i, j, w);
        assert(done(i - 1, j, pa, pb, w, p));
        assert(j - (i - 1) == j - i + 1);
    } else {
        assert(slot_of(j - i + 1, len) == slot_of(j - i + 1, len));
        assert(first_i(j - i + 1) == 0 && first_j(j - i + 1) == j + 1);
    }
    if i >= 1 && j >= 1 {
        lemma_key_monotone(i - 1, j - 1, i, j, w);
        assert(done(i - 1, j - 1, pa, pb, w, p));
        assert((j - 1) - (i - 1) == j - i);
    } else {
        assert(slot_of(j - i, len) == slot_of(j - i, len));
        assert(first_i(j - i) == i && first_j(j - i) == j);
    }
}

/// Writing the cell at the point `p` into its slot keeps the ring in step
/// with the fill order, which then stands just after that cell.
pub proof fn lemma_front_write<M: CellCost>(
    m: M,
    a: Seq<i32>,
    b: Seq<i32>,
    pa: int,
    pb: int,
    w: int,
    cells: Seq<u64>,
    off: int,
    len: int,
    i0: int,
    j0: int,
)
    requires
        front_ok(m, a, b, pa, pb, w, cells, off, len, key(i0, j0, w)),
        in_grid(i0, j0, pa, pb),
        w > 0,
        len > pa + pb + 1,
        0 <= off,
        off + len <= cells.len(),
    ensures
        ({
            let p = key(i0, j0, w);
            front_ok(
                m,
                a,
                b,
                pa,
                pb,
                w,
                cells.update(off + slot_of(j0 - i0, len), dp(m, a, b, i0, j0)),
                off,
                len,
                (p.0, p.1, p.2, p.3 + 1),
            )
        }),
{
    let p = key(i0, j0, w);
    let q = (p.0, p.1, p.2, p.3 + 1);
    let k0 = j0 - i0;
    let v = dp(m, a, b, i0, j0);
    let cells2 = cells.update(off + slot_of(k0, len), v);
    lemma_done_step(pa, pb, w, i0, j0);
    assert forall|i: int, j: int|
        #![trigger done(i, j, pa, pb, w, q)]
        done(i, j, pa, pb, w, q) && !done(i + 1, j + 1, pa, pb, w, q) implies cells2[off + slot_of(j - i, len)]
            == dp(m, a, b, i, j) by {
        lemma_slot_range(j - i, len);
        if i == i0 && j == j0 {
        } else {
            assert(done(i, j, pa, pb, w, p));
            if in_grid(i + 1, j + 1, pa, pb) {
                assert(!done(i + 1, j + 1, pa, pb, w, p));
            }
            if j - i != k0 {
                lemma_slots_distinct(j - i, k0, len);
            } else if i < i0 {
                if i + 1 < i0 {
                    lemma_key_monotone(i + 1, j + 1, i0, j0, w);
                    assert(done(i + 1, j + 1, pa, pb, w, q));
                }
                assert(false);
            } else {
                lemma_key_monotone(i0, j0, i, j, w);
                assert(false);
            }
        }
    }
    assert forall|k: int|
        #![trigger slot_of(k, len)]
        -pa <= k <= pb && !done(first_i(k), first_j(k), pa, pb, w, q) implies cells2[off + slot_of(k, len)]
            == dp(m, a, b, first_i(k) - 1, first_j(k) - 1) by {
        lemma_slot_range(k, len);
        if in_grid(first_i(k), first_j(k), pa, pb) {
            assert(!done(first_i(k), first_j(k), pa, pb, w, p));
        }
        if k != k0 {
            lemma_slots_distinct(k, k0, len);
        } else {
            assert(i0 >= 1 && j0 >= 1);
            lemma_key_monotone(first_i(k), first_j(k), i0, j0, w);
            assert(done(first_i(k), first_j(k), pa, pb, w, q));
            assert(false);
        }
    }
}

proof fn lemma_slot_range(k: int, len: int)
    requires
        len > 0,
    ensures
        0 <= slot_of(k, len) < len,
{
}

/// One step of the fill order past the cell `(i0, j0)` adds that cell alone.
proof fn lemma_done_step(pa: int, pb: int, w: int, i0: int, j0: int)
    requires
        in_grid(i0, j0, pa, pb),
        w > 0,
    ensures
        ({
            let p = key(i0, j0, w);
            let q = (p.0, p.1, p.2, p.3 + 1);
            forall|i: int, j: int|
                in_grid(i, j, pa, pb) ==> (#[trigger] done(i, j, pa, pb, w, q) <==> (done(
                    i,
                    j,
                    pa,
                    pb,
                    w,
                    p,
                ) || (i == i0 && j == j0)))
        }),
{
    let p = key(i0, j0, w);
    let q = (p.0, p.1, p.2, p.3 + 1);
    assert forall|i: int, j: int|
        in_grid(i, j, pa, pb) implies (#[trigger] done(i, j, pa, pb, w, q) <==> (done(i, j, pa, pb, w, p)
            || (i == i0 && j == j0))) by {
        if key(i, j, w) == p {
            lemma_key_injective(i, j, i0, j0, w);
        }
    }
}

/// The ring stays in step where the fill order moves past no cell.
pub proof fn lemma_front_same_done<M: CellCost>(
    m: M,
    a: Seq<i32>,
    b: Seq<i32>,
    pa: int,
    pb: int,
    w: int,
    cells: Seq<u64>,
    off: int,
    len: int,
    p: Pos,
    q: Pos,
)
    requires
        front_ok(m, a, b, pa, pb, w, cells, off, len, p),
        forall|i: int, j: int|
            in_grid(i, j, pa, pb) ==> (lex_lt(key(i, j, w), p) <==> lex_lt(key(i, j, w), q)),
    ensures
        front_ok(m, a, b, pa, pb, w, cells, off, len, q),
{
    assert forall|i: int, j: int| #![trigger done(i, j, pa, pb, w, q)]
        true implies done(i, j, pa, pb, w, q) == done(i, j, pa, pb, w, p) by {
        if in_grid(i, j, pa, pb) {
        }
    }
    assert forall|i: int, j: int|
        #![trigger done(i, j, pa, pb, w, q)]
        done(i, j, pa, pb, w, q) && !done(i + 1, j + 1, pa, pb, w, q) implies cells[off + slot_of(j - i, len)]
            == dp(m, a, b, i, j) by {
        assert(done(i, j, pa, pb, w, p));
        assert(done(i + 1, j + 1, pa, pb, w, q) == done(i + 1, j + 1, pa, pb, w, p));
    }
    assert forall|k: int|
        #![trigger slot_of(k, len)]
        -pa <= k <= pb && !done(first_i(k), first_j(k), pa, pb, w, q) implies cells[off + slot_of(k, len)]
            == dp(m, a, b, first_i(k) - 1, first_j(k) - 1) by {
        assert(done(first_i(k), first_j(k), pa, pb, w, q) == done(first_i(k), first_j(k), pa, pb, w, p));
    }
}

/// Cells outside the segment `[off, off + len)` do not enter `front_ok`.
pub proof fn lemma_front_frame<M: CellCost>(
    m: M,
    a: Seq<i32>,
    b: Seq<i32>,
    pa: int,
    pb: int,
    w: int,
    cells: Seq<u64>,
    cells2: Seq<u64>,
    off: int,
    len: int,
    p: Pos,
)
    requires
        front_ok(m, a, b, pa, pb, w, cells, off, len, p),
        len > 0,
        forall|t: int| off <= t < off + len ==> #[trigger] cells2[t] == cells[t],
    ensures
        front_ok(m, a, b, pa, pb, w, cells2, off, len, p),
{
    assert forall|k: int| #![trigger slot_of(k, len)] true implies cells2[off + slot_of(k, len)] == cells[off
        + slot_of(k, len)] by {
        assert(0 <= slot_of(k, len) < len);
    }
}

/// The parts of a cell's place: tile column, tile row, offsets in the tile.
pub proof fn lemma_key_parts(i: int, j: int, w: int, a_tiles: int, b_tiles: int)
    requires
        w > 0,
        0 <= i < w * a_tiles,
        0 <= j < w * b_tiles,
    ensures
        ({
            let kk = key(i, j, w);
            &&& 0 <= kk.3 < w
            &&& 0 <= kk.2 - kk.3 < w
            &&& 0 <= kk.1 < b_tiles
            &&& 0 <= kk.0 - kk.1 < a_tiles
        }),
{
    reveal(key);
    lemma_split(i, w);
    lemma_split(j, w);
    let qi = i / w;
    let qj = j / w;
    assert(qi < a_tiles) by (nonlinear_arith)
        requires i == w * qi + i % w, i % w >= 0, i < w * a_tiles, w > 0;
    assert(qj < b_tiles) by (nonlinear_arith)
        requires j == w * qj + j % w, j % w >= 0, j < w * b_tiles, w > 0;
}

/// Between the end of one anti-diagonal of a tile and the first cell of the
/// next, the fill order passes no cell.
pub proof fn lemma_step_gap(pa: int, pb: int, w: int, a_tiles: int, b_tiles: int, r: int, tb: int, ld: int)
    requires
        w > 0,
        pa == w * a_tiles,
        pb == w * b_tiles,
    ensures
        forall|i: int, j: int|
            in_grid(i, j, pa, pb) ==> (lex_lt(
                #[trigger] key(i, j, w),
                (r, tb, ld, if ld + 1 <= w { ld + 1 } else { w }),
            ) <==> lex_lt(key(i, j, w), (r, tb, ld + 1, if ld + 2 - w >= 0 { ld + 2 - w } else { 0 }))),
{
    assert forall|i: int, j: int| in_grid(i, j, pa, pb) implies (lex_lt(
        #[trigger] key(i, j, w),
        (r, tb, ld, if ld + 1 <= w { ld + 1 } else { w }),
    ) <==> lex_lt(key(i, j, w), (r, tb, ld + 1, if ld + 2 - w >= 0 { ld + 2 - w } else { 0 }))) by {
        lemma_key_parts(i, j, w, a_tiles, b_tiles);
    }
}

/// Past the last anti-diagonal of a tile, the fill order passes no cell
/// before the next tile of the row.
pub proof fn lemma_tile_gap(pa: int, pb: int, w: int, a_tiles: int, b_tiles: int, r: int, tb: int)
    requires
        w > 0,
        pa == w * a_tiles,
        pb == w * b_tiles,
    ensures
        forall|i: int, j: int|
            in_grid(i, j, pa, pb) ==> (lex_lt(#[trigger] key(i, j, w), (r, tb, 2 * w - 1, w)) <==> lex_lt(
                key(i, j, w),
                (r, tb + 1, 0, 0),
            )),
{
    assert forall|i: int, j: int| in_grid(i, j, pa, pb) implies (lex_lt(
        #[trigger] key(i, j, w),
        (r, tb, 2 * w - 1, w),
    ) <==> lex_lt(key(i, j, w), (r, tb + 1, 0, 0))) by {
        lemma_key_parts(i, j, w, a_tiles, b_tiles);
    }
}

/// Past the last tile of a row of the schedule, the fill order passes no cell
/// before the first tile of the next row.
pub proof fn lemma_row_gap(pa: int, pb: int, w: int, a_tiles: int, b_tiles: int, r: int)
    requires
        w > 0,
        1 <= a_tiles <= b_tiles,
        0 <= r,
        pa == w * a_tiles,
        pb == w * b_tiles,
    ensures
        ({
            let lead_b = r - lead_tile_a(r, a_tiles);
            let next_lead_b = r + 1 - lead_tile_a(r + 1, a_tiles);
            forall|i: int, j: int|
                in_grid(i, j, pa, pb) ==> (lex_lt(
                    #[trigger] key(i, j, w),
                    (r, lead_b + row_diamonds(r, a_tiles, b_tiles), 0, 0),
                ) <==> lex_lt(key(i, j, w), (r + 1, next_lead_b, 0, 0)))
        }),
{
    let lead_b = r - lead_tile_a(r, a_tiles);
    let next_lead_b = r + 1 - lead_tile_a(r + 1, a_tiles);
    assert forall|i: int, j: int| in_grid(i, j, pa, pb) implies (lex_lt(
        #[trigger] key(i, j, w),
        (r, lead_b + row_diamonds(r, a_tiles, b_tiles), 0, 0),
    ) <==> lex_lt(key(i, j, w), (r + 1, next_lead_b, 0, 0))) by {
        lemma_key_parts(i, j, w, a_tiles, b_tiles);
    }
}

/// The boundary of the matrix: the corner is `0`, the rest of the boundary
/// row and column the measure's unreachable cost.
pub proof fn lemma_dp_boundary<M: CellCost>(m: M, a: Seq<i32>, b: Seq<i32>, i: int, j: int)
    requires
        i < 0 || j < 0,
    ensures
        dp(m, a, b, i, j) == (if i < 0 && j < 0 { 0 } else { m.init_spec() }),
{
    reveal(dp);
}

/// A fresh ring segment, `0` in slot `0` and the unreachable cost elsewhere,
/// is in step with the start of the fill order.
pub proof fn lemma_front_init<M: CellCost>(
    m: M,
    a: Seq<i32>,
    b: Seq<i32>,
    pa: int,
    pb: int,
    w: int,
    cells: Seq<u64>,
    off: int,
    len: int,
)
    requires
        w > 0,
        pa >= 0,
        pb >= 0,
        len > pa + pb + 1,
        forall|t: int|
            0 <= t < len ==> #[trigger] cells[off + t] == (if t == 0 { 0 } else { m.init_spec() }),
    ensures
        front_ok(m, a, b, pa, pb, w, cells, off, len, (0, 0, 0, 0)),
{
    assert forall|i: int, j: int| #![trigger done(i, j, pa, pb, w, (0, 0, 0, 0))]
        true implies !done(i, j, pa, pb, w, (0, 0, 0, 0)) by {
        if in_grid(i, j, pa, pb) {
            reveal(key);
            lemma_split(i, w);
            lemma_split(j, w);
        }
    }
    assert forall|k: int|
        #![trigger slot_of(k, len)]
        -pa <= k <= pb && !done(first_i(k), first_j(k), pa, pb, w, (0, 0, 0, 0)) implies cells[off
            + slot_of(k, len)] == dp(m, a, b, first_i(k) - 1, first_j(k) - 1) by {
        lemma_slot_range(k, len);
        lemma_dp_boundary(m, a, b, first_i(k) - 1, first_j(k) - 1);
        if k != 0 {
            lemma_slots_distinct(k, 0, len);
        }
    }
}

/// At the end of the schedule, the slot of the line `pb - pa` holds the last
/// cell of the matrix.
pub proof fn lemma_front_final<M: CellCost>(
    m: M,
    a: Seq<i32>,
    b: Seq<i32>,
    pa: int,
    pb: int,
    w: int,
    a_tiles: int,
    b_tiles: int,
    cells: Seq<u64>,
    off: int,
    len: int,
)
    requires
        w > 0,
        1 <= a_tiles <= b_tiles,
        pa == w * a_tiles,
        pb == w * b_tiles,
        front_ok(
            m,
            a,
            b,
            pa,
            pb,
            w,
            cells,
            off,
            len,
            (
                a_tiles + b_tiles - 1,
                a_tiles + b_tiles - 1 - lead_tile_a(a_tiles + b_tiles - 1, a_tiles),
                0,
                0,
            ),
        ),
    ensures
        cells[off + slot_of(pb - pa, len)] == dp(m, a, b, pa - 1, pb - 1),
{
    let p = (a_tiles + b_tiles - 1, a_tiles + b_tiles - 1 - lead_tile_a(a_tiles + b_tiles - 1, a_tiles), 0, 0);
    assert(pa - 1 == (a_tiles - 1) * w + (w - 1) && pb - 1 == (b_tiles - 1) * w + (w - 1)) by (nonlinear_arith)
        requires pa == w * a_tiles, pb == w * b_tiles;
    lemma_key_of(pa - 1, pb - 1, w, a_tiles - 1, b_tiles - 1, w - 1, w - 1);
    assert(done(pa - 1, pb - 1, pa, pb, w, p));
    assert(!done(pa, pb, pa, pb, w, p));
    assert((pb - 1) - (pa - 1) == pb - pa);
}

/// A cell of the matrix depends on the samples up to its row and column alone.
pub proof fn lemma_dp_congruent<M: CellCost>(
    m: M,
    a1: Seq<i32>,
    b1: Seq<i32>,
    a2: Seq<i32>,
    b2: Seq<i32>,
    i: int,
    j: int,
)
    requires
        forall|t: int| 0 <= t <= i ==> #[trigger] a1[t] == a2[t],
        forall|t: int| 0 <= t <= j ==> #[trigger] b1[t] == b2[t],
    ensures
        dp(m, a1, b1, i, j) == dp(m, a2, b2, i, j),
    decreases i + j + 2,
{
    if i < 0 || j < 0 {
        lemma_dp_boundary(m, a1, b1, i, j);
        lemma_dp_boundary(m, a2, b2, i, j);
    } else {
        lemma_dp_congruent(m, a1, b1, a2, b2, i, j - 1);
        lemma_dp_congruent(m, a1, b1, a2, b2, i - 1, j - 1);
        lemma_dp_congruent(m, a1, b1, a2, b2, i - 1, j);
        lemma_dp_unfold(m, a1, b1, i, j);
        lemma_dp_unfold(m, a2, b2, i, j);
        assert(prev_sample(a1, i) == prev_sample(a2, i));
        assert(prev_sample(b1, j) == prev_sample(b2, j));
        m.lemma_cell_local(
            dp(m, a1, b1, i, j - 1),
            dp(m, a1, b1, i - 1, j - 1),
            dp(m, a1, b1, i - 1, j),
            i,
            j,
            a1,
            b1,
            a2,
            b2,
        );
    }
}

/// The matrix of `(b, a)` is the transpose of the matrix of `(a, b)`.
pub proof fn lemma_dp_symmetric<M: CellCost>(m: M, a: Seq<i32>, b: Seq<i32>, i: int, j: int)
    ensures
        dp(m, a, b, i, j) == dp(m, b, a, j, i),
    decreases i + j + 2,
{
    if i < 0 || j < 0 {
        lemma_dp_boundary(m, a, b, i, j);
        lemma_dp_boundary(m, b, a, j, i);
    } else {
        lemma_dp_symmetric(m, a, b, i, j - 1);
        lemma_dp_symmetric(m, a, b, i - 1, j - 1);
        lemma_dp_symmetric(m, a, b, i - 1, j);
        lemma_dp_unfold(m, a, b, i, j);
        lemma_dp_unfold(m, b, a, j, i);
        m.lemma_cell_symmetric(
            dp(m, a, b, i, j - 1),
            dp(m, a, b, i - 1, j - 1),
            dp(m, a, b, i - 1, j),
            i,
            j,
            a,
            b,
        );
    }
}

} // verus!
