//! Launch geometry of the kernel's batch entry point: which pair a thread
//! works on, and where that pair's series and ring segment start.
use vstd::prelude::*;

verus! {

/// Where the buffers of one pair of a batch start.
#[derive(Clone, Copy, Debug, PartialEq, Eq, Structural)]
pub struct PairAddress {
    pub a_index: u64,
    pub b_index: u64,
    pub a_offset: u64,
    pub b_offset: u64,
    pub diagonal_offset: u64,
}

/// The pair with index `pair_index` in row-major order over `a_count` by
/// `b_count` pairs, with series `padded_a_len` and `padded_b_len` samples
/// apart and ring segments `diagonal_stride` cells apart.
pub fn pair_address(
    pair_index: u64,
    b_count: u64,
    padded_a_len: u64,
    padded_b_len: u64,
    diagonal_stride: u64,
) -> (r: PairAddress)
    requires
        b_count > 0,
        (pair_index / b_count) * padded_a_len <= u64::MAX,
        (pair_index % b_count) * padded_b_len <= u64::MAX,
        pair_index * diagonal_stride <= u64::MAX,
    ensures
        r.a_index == pair_index / b_count,
        r.b_index == pair_index % b_count,
        r.a_offset == r.a_index * padded_a_len,
        r.b_offset == r.b_index * padded_b_len,
        r.diagonal_offset == pair_index * diagonal_stride,
        pair_index == r.a_index * b_count + r.b_index,
{
    let a_index = pair_index / b_count;
    let b_index = pair_index % b_count;
    proof {
        assert(pair_index == a_index * b_count + b_index) by (nonlinear_arith)
            requires a_index == pair_index / b_count, b_index == pair_index % b_count, b_count > 0;
    }
    PairAddress {
        a_index,
        b_index,
        a_offset: a_index * padded_a_len,
        b_offset: b_index * padded_b_len,
        diagonal_offset: pair_index * diagonal_stride,
    }
}

} // verus!
