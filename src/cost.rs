//! Cost recurrences of the elastic measures, one cell at a time.
//!
//! Samples are `i32` values and costs are `u64` values that saturate at
//! `COST_INF`, which stands for an unreachable cell: a sum that reaches it stays
//! there, as a sum with infinity does.
use vstd::prelude::*;

verus! {

/// Cost of an unreachable cell.
pub const COST_INF: u64 = 0xffff_ffff_ffff_ffff;

/// `a + b`, saturating at `COST_INF`.
pub open spec fn sat_add(a: int, b: int) -> u64 {
    if a + b >= COST_INF { COST_INF } else { (a + b) as u64 }
}

/// `a * b`, saturating at `COST_INF`.
pub open spec fn sat_mul(a: int, b: int) -> u64 {
    if a * b >= COST_INF { COST_INF } else { (a * b) as u64 }
}

pub open spec fn min2(a: u64, b: u64) -> u64 {
    if a <= b { a } else { b }
}

pub open spec fn max2(a: u64, b: u64) -> u64 {
    if a >= b { a } else { b }
}

pub open spec fn min3(a: u64, b: u64, c: u64) -> u64 {
    min2(a, min2(b, c))
}

/// `|x - y|`.
pub open spec fn dist(x: int, y: int) -> int {
    if x >= y { x - y } else { y - x }
}

/// Sample `i` of `s`, and `0` before the start.
pub open spec fn prev_sample(s: Seq<i32>, i: int) -> int {
    if i <= 0 { 0 } else { s[i - 1] as int }
}

/// The split/merge cost of the move-split-merge measure:
/// `1 + max(0, min(y, z) - x, x - max(y, z))`.
pub open spec fn msm_cost(x: int, y: int, z: int) -> int {
    let lo = if y <= z { y } else { z };
    let hi = if y >= z { y } else { z };
    1 + (if lo - x >= x - hi { if lo - x >= 0 { lo - x } else { 0 } } else if x - hi >= 0 {
        x - hi
    } else {
        0
    })
}

pub fn add_cost(a: u64, b: u64) -> (r: u64)
    ensures
        r == sat_add(a as int, b as int),
{
    a.saturating_add(b)
}

pub fn mul_cost(a: u64, b: u64) -> (r: u64)
    ensures
        r == sat_mul(a as int, b as int),
{
    if a == 0 {
        proof {
            assert(a * b == 0);
        }
        0
    } else if b > COST_INF / a {
        proof {
            assert(a * b >= COST_INF) by (nonlinear_arith)
                requires a > 0, b > COST_INF / a;
        }
        COST_INF
    } else {
        proof {
            assert(a * b <= COST_INF) by (nonlinear_arith)
                requires a > 0, b <= COST_INF / a;
        }
        a * b
    }
}

pub fn min_cost(a: u64, b: u64) -> (r: u64)
    ensures
        r == min2(a, b),
{
    if a <= b { a } else { b }
}

pub fn max_cost(a: u64, b: u64) -> (r: u64)
    ensures
        r == max2(a, b),
{
    if a >= b { a } else { b }
}

/// `|x - y|` of two samples.
pub fn abs_diff(x: i32, y: i32) -> (r: u64)
    ensures
        r == dist(x as int, y as int),
{
    let d = x as i64 - y as i64;
    if d >= 0 { d as u64 } else { (-d) as u64 }
}

/// `(x - y)^2` of two samples.
pub fn sq_diff(x: i32, y: i32) -> (r: u64)
    ensures
        r == dist(x as int, y as int) * dist(x as int, y as int),
{
    let d = abs_diff(x, y);
    proof {
        assert(d * d <= 0xffff_ffff_ffff_ffff) by (nonlinear_arith)
            requires d <= 0xffff_ffff;
    }
    d * d
}

/// The split/merge cost of the move-split-merge measure,
/// `1 + max(0, min(y, z) - x, x - max(y, z))`.
pub fn msm_cost_function(x: i32, y: i32, z: i32) -> (r: u64)
    ensures
        r == msm_cost(x as int, y as int, z as int),
{
    let lo: i64 = if y <= z { y as i64 } else { z as i64 };
    let hi: i64 = if y >= z { y as i64 } else { z as i64 };
    let xi = x as i64;
    let under: i64 = lo - xi;
    let over: i64 = xi - hi;
    let m: i64 = if under >= over { under } else { over };
    let m0: i64 = if m >= 0 { m } else { 0 };
    (1 + m0) as u64
}

/// The update of one cell `(i, j)` of the cost matrix of a measure, from its
/// neighbours `x = (i, j - 1)`, `y = (i - 1, j - 1)` and `z = (i - 1, j)`,
/// over the pair's series `a` and `b`.
pub trait CellCost {
    /// The value of the update.
    spec fn cell_spec(&self, x: u64, y: u64, z: u64, i: int, j: int, a: Seq<i32>, b: Seq<i32>) -> u64;

    /// The cells `(i, j)` that the measure's parameters can update.
    spec fn admits(&self, i: int, j: int) -> bool;

    /// Cost of an unreachable cell for the measure.
    spec fn init_spec(&self) -> u64;

    fn cell(
        &self,
        x: u64,
        y: u64,
        z: u64,
        i: usize,
        j: usize,
        a: &Vec<i32>,
        a_offset: usize,
        b: &Vec<i32>,
        b_offset: usize,
    ) -> (r: u64)
        requires
            a_offset + i < a@.len(),
            b_offset + j < b@.len(),
            self.admits(i as int, j as int),
        ensures
            r == self.cell_spec(
                x,
                y,
                z,
                i as int,
                j as int,
                a@.skip(a_offset as int),
                b@.skip(b_offset as int),
            ),
    ;

    fn init_val(&self) -> (r: u64)
        ensures
            r == self.init_spec(),
    ;

    /// The update reads the samples `a[i]`, `a[i - 1]`, `b[j]` and `b[j - 1]`
    /// of the series, and no other.
    proof fn lemma_cell_local(
        &self,
        x: u64,
        y: u64,
        z: u64,
        i: int,
        j: int,
        a1: Seq<i32>,
        b1: Seq<i32>,
        a2: Seq<i32>,
        b2: Seq<i32>,
    )
        requires
            a1[i] == a2[i],
            prev_sample(a1, i) == prev_sample(a2, i),
            b1[j] == b2[j],
            prev_sample(b1, j) == prev_sample(b2, j),
        ensures
            self.cell_spec(x, y, z, i, j, a1, b1) == self.cell_spec(x, y, z, i, j, a2, b2),
    ;

    /// The measures are symmetric: exchanging the series exchanges the
    /// neighbours `x` and `z` and leaves the update as it was.
    proof fn lemma_cell_symmetric(&self, x: u64, y: u64, z: u64, i: int, j: int, a: Seq<i32>, b: Seq<i32>)
        ensures
            self.cell_spec(x, y, z, i, j, a, b) == self.cell_spec(z, y, x, j, i, b, a),
    ;
}

/// Sample `i` of the series that starts at `offset`.
fn sample_at(s: &Vec<i32>, offset: usize, i: usize) -> (r: i32)
    requires
        offset + i < s@.len(),
    ensures
        r == s@.skip(offset as int)[i as int],
{
    let n = s.len();
    assert(offset + i < n);
    s[offset + i]
}

/// Sample `i - 1` of the series that starts at `offset`, and `0` for `i == 0`.
fn prev_at(s: &Vec<i32>, offset: usize, i: usize) -> (r: i32)
    requires
        offset + i < s@.len(),
    ensures
        r as int == prev_sample(s@.skip(offset as int), i as int),
{
    if i == 0 { 0 } else { sample_at(s, offset, i - 1) }
}

/// Dynamic time warping: `(a_i - b_j)^2 + min(x, y, z)`.
pub struct Dtw {}

impl CellCost for Dtw {
    open spec fn cell_spec(&self, x: u64, y: u64, z: u64, i: int, j: int, a: Seq<i32>, b: Seq<i32>) -> u64 {
        sat_add(dist(a[i] as int, b[j] as int) * dist(a[i] as int, b[j] as int), min3(z, x, y) as int)
    }

    open spec fn admits(&self, i: int, j: int) -> bool {
        true
    }

    open spec fn init_spec(&self) -> u64 {
        COST_INF
    }

    fn cell(&self, x: u64, y: u64, z: u64, i: usize, j: usize, a: &Vec<i32>, a_offset: usize, b: &Vec<i32>, b_offset: usize) -> (r: u64) {
        let d = sq_diff(sample_at(a, a_offset, i), sample_at(b, b_offset, j));
        add_cost(d, min_cost(z, min_cost(x, y)))
    }

    fn init_val(&self) -> (r: u64) {
        COST_INF
    }

    proof fn lemma_cell_local(&self, x: u64, y: u64, z: u64, i: int, j: int, a1: Seq<i32>, b1: Seq<i32>, a2: Seq<i32>, b2: Seq<i32>) {
    }

    proof fn lemma_cell_symmetric(&self, x: u64, y: u64, z: u64, i: int, j: int, a: Seq<i32>, b: Seq<i32>) {
    }
}

/// `|i - j|` of two indices.
fn index_dist(i: usize, j: usize) -> (r: usize)
    ensures
        r == dist(i as int, j as int),
{
    if i >= j { i - j } else { j - i }
}

/// Weighted dynamic time warping: `(a_i - b_j)^2 * weights[|i - j|] + min(x, y, z)`.
pub struct Wdtw {
    pub weights: Vec<u64>,
}

impl CellCost for Wdtw {
    open spec fn cell_spec(&self, x: u64, y: u64, z: u64, i: int, j: int, a: Seq<i32>, b: Seq<i32>) -> u64 {
        let sq = dist(a[i] as int, b[j] as int) * dist(a[i] as int, b[j] as int);
        sat_add(sat_mul(sq, self.weights@[dist(i, j)] as int) as int, min2(x, min2(y, z)) as int)
    }

    open spec fn admits(&self, i: int, j: int) -> bool {
        dist(i, j) < self.weights@.len()
    }

    open spec fn init_spec(&self) -> u64 {
        COST_INF
    }

    fn cell(&self, x: u64, y: u64, z: u64, i: usize, j: usize, a: &Vec<i32>, a_offset: usize, b: &Vec<i32>, b_offset: usize) -> (r: u64) {
        let sq = sq_diff(sample_at(a, a_offset, i), sample_at(b, b_offset, j));
        let d = mul_cost(sq, self.weights[index_dist(i, j)]);
        add_cost(d, min_cost(x, min_cost(y, z)))
    }

    fn init_val(&self) -> (r: u64) {
        COST_INF
    }

    proof fn lemma_cell_local(&self, x: u64, y: u64, z: u64, i: int, j: int, a1: Seq<i32>, b1: Seq<i32>, a2: Seq<i32>, b2: Seq<i32>) {
    }

    proof fn lemma_cell_symmetric(&self, x: u64, y: u64, z: u64, i: int, j: int, a: Seq<i32>, b: Seq<i32>) {
    }
}

/// Amerced dynamic time warping: `(a_i - b_j)^2 + min(z + w, x + w, y)`.
pub struct Adtw {
    pub w: u64,
}

impl CellCost for Adtw {
    open spec fn cell_spec(&self, x: u64, y: u64, z: u64, i: int, j: int, a: Seq<i32>, b: Seq<i32>) -> u64 {
        let sq = dist(a[i] as int, b[j] as int) * dist(a[i] as int, b[j] as int);
        sat_add(sq, min2(sat_add(z as int, self.w as int), min2(sat_add(x as int, self.w as int), y)) as int)
    }

    open spec fn admits(&self, i: int, j: int) -> bool {
        true
    }

    open spec fn init_spec(&self) -> u64 {
        COST_INF
    }

    fn cell(&self, x: u64, y: u64, z: u64, i: usize, j: usize, a: &Vec<i32>, a_offset: usize, b: &Vec<i32>, b_offset: usize) -> (r: u64) {
        let sq = sq_diff(sample_at(a, a_offset, i), sample_at(b, b_offset, j));
        add_cost(sq, min_cost(add_cost(z, self.w), min_cost(add_cost(x, self.w), y)))
    }

    fn init_val(&self) -> (r: u64) {
        COST_INF
    }

    proof fn lemma_cell_local(&self, x: u64, y: u64, z: u64, i: int, j: int, a1: Seq<i32>, b1: Seq<i32>, a2: Seq<i32>, b2: Seq<i32>) {
    }

    proof fn lemma_cell_symmetric(&self, x: u64, y: u64, z: u64, i: int, j: int, a: Seq<i32>, b: Seq<i32>) {
    }
}

/// Edit distance with real penalty:
/// `min(y + |a_i - b_j|, z + |a_i - g|, x + |b_j - g|)` for the gap value `g`.
pub struct Erp {
    pub gap_penalty: i32,
}

impl CellCost for Erp {
    open spec fn cell_spec(&self, x: u64, y: u64, z: u64, i: int, j: int, a: Seq<i32>, b: Seq<i32>) -> u64 {
        let g = self.gap_penalty as int;
        min2(
            sat_add(y as int, dist(a[i] as int, b[j] as int)),
            min2(sat_add(z as int, dist(a[i] as int, g)), sat_add(x as int, dist(b[j] as int, g))),
        )
    }

    open spec fn admits(&self, i: int, j: int) -> bool {
        true
    }

    open spec fn init_spec(&self) -> u64 {
        COST_INF
    }

    fn cell(&self, x: u64, y: u64, z: u64, i: usize, j: usize, a: &Vec<i32>, a_offset: usize, b: &Vec<i32>, b_offset: usize) -> (r: u64) {
        let ai = sample_at(a, a_offset, i);
        let bj = sample_at(b, b_offset, j);
        min_cost(
            add_cost(y, abs_diff(ai, bj)),
            min_cost(add_cost(z, abs_diff(ai, self.gap_penalty)), add_cost(x, abs_diff(bj, self.gap_penalty))),
        )
    }

    fn init_val(&self) -> (r: u64) {
        COST_INF
    }

    proof fn lemma_cell_local(&self, x: u64, y: u64, z: u64, i: int, j: int, a1: Seq<i32>, b1: Seq<i32>, a2: Seq<i32>, b2: Seq<i32>) {
    }

    proof fn lemma_cell_symmetric(&self, x: u64, y: u64, z: u64, i: int, j: int, a: Seq<i32>, b: Seq<i32>) {
    }
}

/// Longest common subsequence similarity: `y + 1` where `|a_i - b_j| <= epsilon`,
/// else `max(x, z)`. Its boundary cells are `0`.
pub struct Lcss {
    pub epsilon: u64,
}

impl CellCost for Lcss {
    open spec fn cell_spec(&self, x: u64, y: u64, z: u64, i: int, j: int, a: Seq<i32>, b: Seq<i32>) -> u64 {
        if dist(a[i] as int, b[j] as int) <= self.epsilon {
            sat_add(y as int, 1)
        } else {
            max2(x, z)
        }
    }

    open spec fn admits(&self, i: int, j: int) -> bool {
        true
    }

    open spec fn init_spec(&self) -> u64 {
        0
    }

    fn cell(&self, x: u64, y: u64, z: u64, i: usize, j: usize, a: &Vec<i32>, a_offset: usize, b: &Vec<i32>, b_offset: usize) -> (r: u64) {
        let d = abs_diff(sample_at(a, a_offset, i), sample_at(b, b_offset, j));
        if d <= self.epsilon {
            add_cost(y, 1)
        } else {
            max_cost(x, z)
        }
    }

    fn init_val(&self) -> (r: u64) {
        0
    }

    proof fn lemma_cell_local(&self, x: u64, y: u64, z: u64, i: int, j: int, a1: Seq<i32>, b1: Seq<i32>, a2: Seq<i32>, b2: Seq<i32>) {
    }

    proof fn lemma_cell_symmetric(&self, x: u64, y: u64, z: u64, i: int, j: int, a: Seq<i32>, b: Seq<i32>) {
    }
}

/// Move-split-merge:
/// `min(y + |a_i - b_j|, z + C(a_i, a_{i-1}, b_j), x + C(b_j, a_i, b_{j-1}))`.
pub struct Msm {}

impl CellCost for Msm {
    open spec fn cell_spec(&self, x: u64, y: u64, z: u64, i: int, j: int, a: Seq<i32>, b: Seq<i32>) -> u64 {
        let ai = a[i] as int;
        let bj = b[j] as int;
        min2(
            min2(
                sat_add(y as int, dist(ai, bj)),
                sat_add(z as int, msm_cost(ai, prev_sample(a, i), bj)),
            ),
            sat_add(x as int, msm_cost(bj, ai, prev_sample(b, j))),
        )
    }

    open spec fn admits(&self, i: int, j: int) -> bool {
        true
    }

    open spec fn init_spec(&self) -> u64 {
        COST_INF
    }

    fn cell(&self, x: u64, y: u64, z: u64, i: usize, j: usize, a: &Vec<i32>, a_offset: usize, b: &Vec<i32>, b_offset: usize) -> (r: u64) {
        let ai = sample_at(a, a_offset, i);
        let bj = sample_at(b, b_offset, j);
        min_cost(
            min_cost(
                add_cost(y, abs_diff(ai, bj)),
                add_cost(z, msm_cost_function(ai, prev_at(a, a_offset, i), bj)),
            ),
            add_cost(x, msm_cost_function(bj, ai, prev_at(b, b_offset, j))),
        )
    }

    fn init_val(&self) -> (r: u64) {
        COST_INF
    }

    proof fn lemma_cell_local(&self, x: u64, y: u64, z: u64, i: int, j: int, a1: Seq<i32>, b1: Seq<i32>, a2: Seq<i32>, b2: Seq<i32>) {
    }

    proof fn lemma_cell_symmetric(&self, x: u64, y: u64, z: u64, i: int, j: int, a: Seq<i32>, b: Seq<i32>) {
    }
}

/// Time warp edit distance with stiffness `nu` and penalty `lambda`:
/// the least of deleting in `a`, deleting in `b`, and matching.
pub struct Twe {
    pub stiffness: u64,
    pub penalty: u64,
}

impl CellCost for Twe {
    open spec fn cell_spec(&self, x: u64, y: u64, z: u64, i: int, j: int, a: Seq<i32>, b: Seq<i32>) -> u64 {
        let ai = a[i] as int;
        let bj = b[j] as int;
        let pa = prev_sample(a, i);
        let pb = prev_sample(b, j);
        let delete_addition = sat_add(self.penalty as int, self.stiffness as int) as int;
        let del_a = sat_add(sat_add(z as int, dist(pa, ai)) as int, delete_addition);
        let del_b = sat_add(sat_add(x as int, dist(pb, bj)) as int, delete_addition);
        let match_a_b = sat_add(
            sat_add(sat_add(y as int, dist(ai, bj)) as int, dist(pa, pb)) as int,
            sat_mul(self.stiffness as int, sat_add(dist(i, j), dist(i, j)) as int) as int,
        );
        min2(del_a, min2(del_b, match_a_b))
    }

    open spec fn admits(&self, i: int, j: int) -> bool {
        true
    }

    open spec fn init_spec(&self) -> u64 {
        COST_INF
    }

    fn cell(&self, x: u64, y: u64, z: u64, i: usize, j: usize, a: &Vec<i32>, a_offset: usize, b: &Vec<i32>, b_offset: usize) -> (r: u64) {
        let ai = sample_at(a, a_offset, i);
        let bj = sample_at(b, b_offset, j);
        let pa = prev_at(a, a_offset, i);
        let pb = prev_at(b, b_offset, j);
        let delete_addition = add_cost(self.penalty, self.stiffness);
        let del_a = add_cost(add_cost(z, abs_diff(pa, ai)), delete_addition);
        let del_b = add_cost(add_cost(x, abs_diff(pb, bj)), delete_addition);
        let ij = index_dist(i, j) as u64;
        let match_a_b = add_cost(
            add_cost(add_cost(y, abs_diff(ai, bj)), abs_diff(pa, pb)),
            mul_cost(self.stiffness, add_cost(ij, ij)),
        );
        min_cost(del_a, min_cost(del_b, match_a_b))
    }

    fn init_val(&self) -> (r: u64) {
        COST_INF
    }

    proof fn lemma_cell_local(&self, x: u64, y: u64, z: u64, i: int, j: int, a1: Seq<i32>, b1: Seq<i32>, a2: Seq<i32>, b2: Seq<i32>) {
    }

    proof fn lemma_cell_symmetric(&self, x: u64, y: u64, z: u64, i: int, j: int, a: Seq<i32>, b: Seq<i32>) {
    }
}

} // verus!
