//! The ring diagonal: a power-of-two buffer addressed by a mask, which holds the
//! most recent cells of every anti-diagonal line of a pair's cost matrix.
use vstd::prelude::*;
use vstd::arithmetic::power2::{pow2, lemma_pow2_unfold, lemma2_to64, lemma2_to64_rest, lemma_pow2_strictly_increases, lemma_pow2_adds};
use vstd::arithmetic::div_mod::lemma_mod_multiples_vanish;
use vstd::bits::{low_bits_mask, lemma_u64_low_bits_mask_is_mod};

verus! {

/// `n` is a power of two that a `u64` can hold.
pub open spec fn is_pow2(n: int) -> bool {
    exists|e: nat| e < 64 && #[trigger] pow2(e) == n
}

/// `p` is the smallest power of two that is at least `x`.
pub open spec fn is_next_pow2(x: int, p: int) -> bool {
    &&& is_pow2(p)
    &&& p >= x
    &&& (p == 1 || p / 2 < x)
}

/// Ring slot of the line `k` (the difference `j - i` of a cell) in a ring of
/// `len` slots: `k` modulo `len`, also for negative `k`.
pub open spec fn slot_of(k: int, len: int) -> int {
    k % len
}

/// Length of the ring diagonal for padded series lengths `pa` and `pb`:
/// twice the smallest power of two that exceeds the longer one.
pub open spec fn is_diagonal_len(pa: int, pb: int, len: int) -> bool {
    &&& len % 2 == 0
    &&& is_next_pow2((if pa >= pb { pa } else { pb }) + 1, len / 2)
}

/// Smallest power of two that is at least `x`.
pub fn next_power_of_two(x: u64) -> (r: u64)
    requires
        x <= 0x8000_0000_0000_0000,
    ensures
        is_next_pow2(x as int, r as int),
{
    let mut p: u64 = 1;
    let ghost mut e: nat = 0;
    proof {
        lemma2_to64();
    }
    while p < x
        invariant
            p == pow2(e),
            p >= 1,
            e < 64,
            x <= 0x8000_0000_0000_0000,
            p == 1 || p / 2 < x,
        decreases 64 - e,
    {
        proof {
            lemma_pow2_unfold(e + 1);
            lemma2_to64_rest();
            if e == 63 {
                assert(false);
            }
        }
        p = p * 2;
        proof {
            e = e + 1;
        }
    }
    p
}

/// Length of the ring diagonal of one pair: `2 * next_pow2(max(pa, pb) + 1)`.
pub fn diagonal_len(padded_a_len: u64, padded_b_len: u64) -> (r: u64)
    requires
        padded_a_len < 0x3fff_ffff_ffff_ffff,
        padded_b_len < 0x3fff_ffff_ffff_ffff,
    ensures
        is_diagonal_len(padded_a_len as int, padded_b_len as int, r as int),
        r >= 2 * (padded_a_len + 1),
        r >= 2 * (padded_b_len + 1),
        r < 4 * ((if padded_a_len >= padded_b_len { padded_a_len } else { padded_b_len }) + 1),
        is_pow2(r as int),
{
    let m = if padded_a_len >= padded_b_len { padded_a_len } else { padded_b_len };
    let p = next_power_of_two(m + 1);
    proof {
        let e = choose|e: nat| e < 64 && #[trigger] pow2(e) == p;
        lemma_pow2_unfold(e + 1);
        lemma2_to64_rest();
        if e >= 63 {
            if e > 63 {
                lemma_pow2_strictly_increases(63, e);
            }
            assert(false);
        }
        assert(pow2(e + 1) == p * 2);
    }
    p * 2
}

/// Reads a ring slot as the device does: the line index, cast to an unsigned
/// word, and-ed with the mask.
pub fn ring_slot(k: i64, mask: u64) -> (r: u64)
    requires
        is_pow2(mask + 1),
        mask < 0x4000_0000_0000_0000,
    ensures
        r as int == slot_of(k as int, mask + 1),
        r <= mask,
{
    let u = #[verifier::truncate] (k as u64);
    let r = u & mask;
    proof {
        let len = mask + 1;
        let e = choose|e: nat| e < 64 && #[trigger] pow2(e) == len;
        assert(low_bits_mask(e) == mask);
        lemma_u64_low_bits_mask_is_mod(u, e);
        assert(r == u % (len as u64));
        if k >= 0 {
            assert(u as int == k);
            assert(r as int == (k as int) % (len as int));
        } else {
            // the unsigned word of a negative line is the line plus 2^64
            let n: u64 = (-(k + 1)) as u64;
            assert(u == 0xffff_ffff_ffff_ffffu64 - n) by (bit_vector)
                requires
                    u == k as u64,
                    k < 0,
                    n == (-(k + 1)) as u64;
            assert(u as int == k + 0x1_0000_0000_0000_0000);
            // and 2^64 is a multiple of the ring's length
            lemma2_to64();
            lemma_pow2_adds(e, (64 - e) as nat);
            let q = pow2((64 - e) as nat) as int;
            assert(0x1_0000_0000_0000_0000 == (len as int) * q);
            lemma_mod_multiples_vanish(q, k as int, len as int);
            assert(r as int == (u as int) % (len as int));
        }
    }
    r
}

/// Two lines closer than the ring's length have distinct slots.
pub proof fn lemma_slots_distinct(k1: int, k2: int, len: int)
    requires
        len > 0,
        k1 != k2,
        -len < k1 - k2 < len,
    ensures
        slot_of(k1, len) != slot_of(k2, len),
{
    let q1 = k1 / len;
    let q2 = k2 / len;
    assert(k1 == len * q1 + k1 % len && k2 == len * q2 + k2 % len) by (nonlinear_arith)
        requires len > 0, q1 == k1 / len, q2 == k2 / len;
    if k1 % len == k2 % len {
        assert(k1 - k2 == len * (q1 - q2)) by (nonlinear_arith)
            requires k1 == len * q1 + k1 % len, k2 == len * q2 + k2 % len, k1 % len == k2 % len;
        assert(false) by (nonlinear_arith)
            requires
                k1 - k2 == len * (q1 - q2),
                k1 != k2,
                -len < k1 - k2 < len;
    }
}

/// Distinct lines of the cost matrix of one pair, the boundary lines included
/// (`-pa <= k <= pb`), never share a slot of the pair's ring diagonal: the
/// writes of one wave, and the cells that a wave reads, never collide.
pub proof fn lemma_ring_safety(pa: int, pb: int, len: int, k1: int, k2: int)
    requires
        pa >= 0,
        pb >= 0,
        is_diagonal_len(pa, pb, len),
        -pa <= k1 <= pb,
        -pa <= k2 <= pb,
        k1 != k2,
    ensures
        slot_of(k1, len) != slot_of(k2, len),
{
    assert(len >= 2 * (pa + 1) && len >= 2 * (pb + 1));
    lemma_slots_distinct(k1, k2, len);
}

/// The ring diagonals of a run: one segment of `mask + 1` cells per pair,
/// and the segment that the current pair works in.
pub struct GpuMatrix<T> {
    diagonal: Vec<T>,
    diagonal_offset: usize,
    mask: usize,
}

impl<T: Copy> GpuMatrix<T> {
    /// All cells of all segments.
    pub closed spec fn cells(&self) -> Seq<T> {
        self.diagonal@
    }

    /// Start of the current segment.
    pub closed spec fn offset(&self) -> int {
        self.diagonal_offset as int
    }

    /// Number of slots of one segment.
    pub closed spec fn ring_len(&self) -> int {
        self.mask + 1
    }

    /// Index in `cells` of the line `k` of the current segment.
    pub open spec fn index_of(&self, k: int) -> int {
        self.offset() + slot_of(k, self.ring_len())
    }

    pub open spec fn wf(&self) -> bool {
        &&& is_pow2(self.ring_len())
        &&& 0 <= self.offset()
        &&& self.ring_len() <= 0x4000_0000_0000_0000
        &&& self.offset() + self.ring_len() <= self.cells().len()
    }

    /// Wraps `diagonal`, with the current segment at `diagonal_offset`.
    pub fn new(diagonal: Vec<T>, diagonal_offset: usize, mask: usize) -> (r: Self)
        requires
            is_pow2(mask + 1),
            mask < 0x4000_0000_0000_0000,
            diagonal_offset + mask < diagonal@.len(),
        ensures
            r.wf(),
            r.cells() == diagonal@,
            r.offset() == diagonal_offset,
            r.ring_len() == mask + 1,
    {
        GpuMatrix { diagonal, diagonal_offset, mask }
    }

    /// Moves the current segment to `diagonal_offset`.
    pub fn set_offset(&mut self, diagonal_offset: usize)
        requires
            old(self).wf(),
            diagonal_offset + old(self).ring_len() <= old(self).cells().len(),
        ensures
            final(self).wf(),
            final(self).cells() == old(self).cells(),
            final(self).ring_len() == old(self).ring_len(),
            final(self).offset() == diagonal_offset,
    {
        self.diagonal_offset = diagonal_offset;
    }

    /// Cell of the line `diag_offset` of the current segment; the anti-diagonal
    /// `_diag_row` does not enter the address.
    pub fn get_diagonal_cell(&self, _diag_row: u64, diag_offset: i64) -> (r: T)
        requires
            self.wf(),
        ensures
            r == self.cells()[self.index_of(diag_offset as int)],
    {
        let n = self.diagonal.len();
        let s64 = ring_slot(diag_offset, self.mask as u64);
        assert(s64 <= self.mask);
        let slot = s64 as usize;
        assert(slot as int == s64 as int);
        assert(self.diagonal_offset + slot < n);
        self.diagonal[self.diagonal_offset + slot]
    }

    /// Writes `value` into the line `diag_offset` of the current segment.
    pub fn set_diagonal_cell(&mut self, _diag_row: u64, diag_offset: i64, value: T)
        requires
            old(self).wf(),
        ensures
            final(self).wf(),
            final(self).offset() == old(self).offset(),
            final(self).ring_len() == old(self).ring_len(),
            final(self).cells().len() == old(self).cells().len(),
            old(self).offset() <= old(self).index_of(diag_offset as int) < old(self).offset()
                + old(self).ring_len(),
            final(self).cells() == old(self).cells().update(
                old(self).index_of(diag_offset as int),
                value,
            ),
    {
        let n = self.diagonal.len();
        let s64 = ring_slot(diag_offset, self.mask as u64);
        assert(s64 <= self.mask);
        let slot = s64 as usize;
        assert(slot as int == s64 as int);
        assert(self.diagonal_offset + slot < n);
        self.diagonal.set(self.diagonal_offset + slot, value);
    }

    /// Hands back all cells.
    pub fn into_cells(self) -> (r: Vec<T>)
        ensures
            r@ == self.cells(),
    {
        self.diagonal
    }
}

} // verus!
