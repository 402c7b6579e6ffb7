//! The kernel-parameter protocol: which entry point a measure dispatches to,
//! and the push-constant block that every dispatch carries.
use vstd::prelude::*;
use crate::schedule::RowDispatch;

verus! {

/// The measures, as the device module names their kernels.
#[derive(Clone, Copy, Debug, PartialEq, Eq, Structural)]
pub enum MeasureKind {
    Erp,
    Lcss,
    Dtw,
    Wdtw,
    Msm,
    Twe,
    Adtw,
}

/// Number of scalar parameters that the measure's kernel reads from the
/// push constants (ERP: gap; LCSS: epsilon; ADTW: amercement; TWE:
/// stiffness and penalty).
pub open spec fn scalar_count_spec(kind: MeasureKind) -> nat {
    match kind {
        MeasureKind::Erp => 1,
        MeasureKind::Lcss => 1,
        MeasureKind::Adtw => 1,
        MeasureKind::Twe => 2,
        _ => 0,
    }
}

pub fn scalar_count(kind: MeasureKind) -> (r: usize)
    ensures
        r == scalar_count_spec(kind),
{
    match kind {
        MeasureKind::Erp => 1,
        MeasureKind::Lcss => 1,
        MeasureKind::Adtw => 1,
        MeasureKind::Twe => 2,
        _ => 0,
    }
}

/// Only WDTW binds a vector parameter, its weights, at binding 3.
pub fn uses_weights(kind: MeasureKind) -> (r: bool)
    ensures
        r == (kind == MeasureKind::Wdtw),
{
    match kind {
        MeasureKind::Wdtw => true,
        _ => false,
    }
}

/// LCSS counts matches and starts from `0`; the other measures start from an
/// unreachable (infinite) cost.
pub fn init_is_zero(kind: MeasureKind) -> (r: bool)
    ensures
        r == (kind == MeasureKind::Lcss),
{
    match kind {
        MeasureKind::Lcss => true,
        _ => false,
    }
}

/// Name of the module of the measure's kernels in the device module.
pub open spec fn kernel_module_spec(kind: MeasureKind) -> Seq<char> {
    match kind {
        MeasureKind::Erp => "erp_distance"@,
        MeasureKind::Lcss => "lcss_distance"@,
        MeasureKind::Dtw => "dtw_distance"@,
        MeasureKind::Wdtw => "wdtw_distance"@,
        MeasureKind::Msm => "msm_distance"@,
        MeasureKind::Twe => "twe_distance"@,
        MeasureKind::Adtw => "adtw_distance"@,
    }
}

/// Module of the measure's kernels in the device module; its entry points
/// are `single_call` and `batch_call`.
pub fn kernel_module(kind: MeasureKind) -> (r: &'static str)
    ensures
        r@ == kernel_module_spec(kind),
{
    let r = match kind {
        MeasureKind::Erp => "erp_distance",
        MeasureKind::Lcss => "lcss_distance",
        MeasureKind::Dtw => "dtw_distance",
        MeasureKind::Wdtw => "wdtw_distance",
        MeasureKind::Msm => "msm_distance",
        MeasureKind::Twe => "twe_distance",
        MeasureKind::Adtw => "adtw_distance",
    };
    r
}

/// `v` as `n` little-endian bytes.
pub open spec fn le_bytes(v: nat, n: nat) -> Seq<u8>
    decreases n,
{
    if n == 0 {
        Seq::empty()
    } else {
        seq![(v % 256) as u8] + le_bytes(v / 256, (n - 1) as nat)
    }
}

/// The two's-complement word of a signed value.
pub open spec fn twos(v: i64) -> nat {
    if v >= 0 { v as nat } else { (v + 0x1_0000_0000_0000_0000) as nat }
}

/// Appends the `n` little-endian bytes of `v` to `out`.
fn push_le(out: &mut Vec<u8>, v: u64, n: usize)
    requires
        n <= 8,
    ensures
        final(out)@ == old(out)@ + le_bytes(v as nat, n as nat),
{
    let mut x = v;
    let mut t: usize = 0;
    let ghost start = out@;
    while t < n
        invariant
            t <= n,
            n <= 8,
            out@ + le_bytes(x as nat, (n - t) as nat) == start + le_bytes(v as nat, n as nat),
        decreases n - t,
    {
        let ghost before = out@;
        proof {
            assert(le_bytes(x as nat, (n - t) as nat) == seq![(x % 256) as u8] + le_bytes(
                (x / 256) as nat,
                (n - t - 1) as nat,
            ));
        }
        out.push((x % 256) as u8);
        proof {
            assert(out@ + le_bytes((x / 256) as nat, (n - t - 1) as nat) =~= before + le_bytes(
                x as nat,
                (n - t) as nat,
            ));
        }
        x = x / 256;
        t = t + 1;
    }
    assert(le_bytes(x as nat, 0) =~= Seq::<u8>::empty());
    assert(out@ =~= out@ + le_bytes(x as nat, 0));
}

/// The push constants of one dispatch. The measure's scalars are the
/// 32-bit words of its parameters, as the kernel reads them.
pub struct KernelConstants {
    pub first_coord: i64,
    pub row: u64,
    pub diamonds_count: u64,
    pub a_start: u64,
    pub b_start: u64,
    pub a_len: u64,
    pub b_len: u64,
    pub a_count: u64,
    pub b_count: u64,
    pub diagonal_stride: u64,
    pub max_subgroup_threads: u64,
    pub params: Vec<u32>,
    pub padded_a_len: u64,
    pub padded_b_len: u64,
}

/// The words of the scalars, four bytes each, then zero bytes up to the
/// next 8-byte boundary.
pub open spec fn params_bytes(params: Seq<u32>) -> Seq<u8>
    decreases params.len(),
{
    if params.len() == 0 {
        Seq::empty()
    } else {
        le_bytes(params[0] as nat, 4) + params_bytes(params.drop_first())
    }
}

pub open spec fn alignment_pad(params_len: nat) -> Seq<u8> {
    if params_len % 2 == 1 { seq![0u8, 0u8, 0u8, 0u8] } else { Seq::empty() }
}

/// The block as the device reads it: little-endian, each field at its
/// natural alignment, in declaration order.
pub open spec fn push_constant_layout(c: KernelConstants) -> Seq<u8> {
    le_bytes(twos(c.first_coord), 8) + le_bytes(c.row as nat, 8) + le_bytes(c.diamonds_count as nat, 8)
        + le_bytes(c.a_start as nat, 8) + le_bytes(c.b_start as nat, 8) + le_bytes(c.a_len as nat, 8)
        + le_bytes(c.b_len as nat, 8) + le_bytes(c.a_count as nat, 8) + le_bytes(c.b_count as nat, 8)
        + le_bytes(c.diagonal_stride as nat, 8) + le_bytes(c.max_subgroup_threads as nat, 8)
        + params_bytes(c.params@) + alignment_pad(c.params@.len()) + le_bytes(c.padded_a_len as nat, 8)
        + le_bytes(c.padded_b_len as nat, 8)
}

impl KernelConstants {
    /// The bytes of the push-constant block.
    pub fn to_bytes(&self) -> (r: Vec<u8>)
        requires
            self.params@.len() <= 4,
        ensures
            r@ == push_constant_layout(*self),
    {
        let mut out: Vec<u8> = Vec::new();
        let fc: u64 = if self.first_coord >= 0 {
            self.first_coord as u64
        } else {
            (0xffff_ffff_ffff_ffffu64 - ((-(self.first_coord + 1)) as u64)) + 0
        };
        assert(fc as nat == twos(self.first_coord));
        push_le(&mut out, fc, 8);
        push_le(&mut out, self.row, 8);
        push_le(&mut out, self.diamonds_count, 8);
        push_le(&mut out, self.a_start, 8);
        push_le(&mut out, self.b_start, 8);
        push_le(&mut out, self.a_len, 8);
        push_le(&mut out, self.b_len, 8);
        push_le(&mut out, self.a_count, 8);
        push_le(&mut out, self.b_count, 8);
        push_le(&mut out, self.diagonal_stride, 8);
        push_le(&mut out, self.max_subgroup_threads, 8);
        let ghost head = out@;
        let mut t: usize = 0;
        assert(self.params@.skip(0) =~= self.params@);
        while t < self.params.len()
            invariant
                t <= self.params@.len(),
                self.params@.len() <= 4,
                out@ + params_bytes(self.params@.skip(t as int)) == head + params_bytes(self.params@),
            decreases self.params@.len() - t,
        {
            proof {
                let rest = self.params@.skip(t as int);
                assert(rest.drop_first() =~= self.params@.skip(t + 1));
                assert(params_bytes(rest) == le_bytes(rest[0] as nat, 4) + params_bytes(rest.drop_first()));
            }
            let ghost before = out@;
            push_le(&mut out, self.params[t] as u64, 4);
            proof {
                assert(out@ + params_bytes(self.params@.skip(t + 1)) =~= before + params_bytes(
                    self.params@.skip(t as int),
                ));
            }
            t = t + 1;
        }
        proof {
            assert(self.params@.skip(t as int) =~= Seq::<u32>::empty());
            assert(out@ =~= head + params_bytes(self.params@));
        }
        if self.params.len() % 2 == 1 {
            push_le(&mut out, 0, 4);
            proof {
                reveal_with_fuel(le_bytes, 5);
                assert(le_bytes(0, 4) =~= seq![0u8, 0u8, 0u8, 0u8]);
            }
        }
        push_le(&mut out, self.padded_a_len, 8);
        push_le(&mut out, self.padded_b_len, 8);
        assert(out@ =~= push_constant_layout(*self));
        out
    }
}

/// Layout of the pairs of a batch dispatch.
#[derive(Clone, Copy, Debug, PartialEq, Eq, Structural)]
pub struct BatchInfo {
    pub padded_a_len: u64,
    pub padded_b_len: u64,
    pub a_count: u64,
    pub b_count: u64,
    pub diagonal_stride: u64,
}

/// The push constants of the dispatch of `row`, and the number of threads
/// it launches. A batch dispatch carries the batch's layout and launches
/// `w` lanes per diamond for every pair; a single dispatch works on one pair,
/// with zero padded lengths and a stride of one row's threads.
pub fn kernel_constants(
    row: &RowDispatch,
    a_len: u64,
    b_len: u64,
    w: u64,
    batch_info: Option<BatchInfo>,
    params: Vec<u32>,
) -> (r: (KernelConstants, u64))
    requires
        match batch_info {
            Some(bi) => bi.a_count * bi.b_count * row.diamonds_count * w <= u64::MAX,
            None => row.diamonds_count * w <= u64::MAX,
        },
    ensures
        r.0.first_coord == row.first_coord,
        r.0.row == row.row,
        r.0.diamonds_count == row.diamonds_count,
        r.0.a_start == row.a_start,
        r.0.b_start == row.b_start,
        r.0.a_len == a_len,
        r.0.b_len == b_len,
        r.0.max_subgroup_threads == w,
        r.0.params == params,
        match batch_info {
            Some(bi) => {
                &&& r.0.padded_a_len == bi.padded_a_len
                &&& r.0.padded_b_len == bi.padded_b_len
                &&& r.0.a_count == bi.a_count
                &&& r.0.b_count == bi.b_count
                &&& r.0.diagonal_stride == bi.diagonal_stride
                &&& r.1 == bi.a_count * bi.b_count * row.diamonds_count * w
            },
            None => {
                &&& r.0.padded_a_len == 0
                &&& r.0.padded_b_len == 0
                &&& r.0.a_count == 1
                &&& r.0.b_count == 1
                &&& r.0.diagonal_stride == row.diamonds_count * w
                &&& r.1 == row.diamonds_count * w
            },
        },
{
    let (padded_a_len, padded_b_len, threads, a_count, b_count, diagonal_stride) = match batch_info {
        Some(bi) => {
            proof {
                assert(bi.a_count * bi.b_count * row.diamonds_count * w == bi.a_count * bi.b_count * (
                row.diamonds_count * w)) by (nonlinear_arith);
                assert(bi.a_count * bi.b_count * row.diamonds_count * w >= 0) by (nonlinear_arith);
                if w > 0 && row.diamonds_count > 0 {
                    assert(bi.a_count * bi.b_count <= bi.a_count * bi.b_count * row.diamonds_count * w)
                        by (nonlinear_arith)
                        requires w > 0, row.diamonds_count > 0;
                    assert(bi.a_count * bi.b_count * row.diamonds_count <= bi.a_count * bi.b_count
                        * row.diamonds_count * w) by (nonlinear_arith)
                        requires w > 0;
                }
            }
            let threads = if w == 0 || row.diamonds_count == 0 {
                proof {
                    assert(bi.a_count * bi.b_count * row.diamonds_count * w == 0) by (nonlinear_arith)
                        requires w == 0 || row.diamonds_count == 0;
                }
                0
            } else {
                bi.a_count * bi.b_count * row.diamonds_count * w
            };
            (bi.padded_a_len, bi.padded_b_len, threads, bi.a_count, bi.b_count, bi.diagonal_stride)
        },
        None => (0, 0, row.diamonds_count * w, 1, 1, row.diamonds_count * w),
    };
    let constants = KernelConstants {
        first_coord: row.first_coord,
        row: row.row,
        diamonds_count: row.diamonds_count,
        a_start: row.a_start,
        b_start: row.b_start,
        a_len,
        b_len,
        a_count,
        b_count,
        diagonal_stride,
        max_subgroup_threads: w,
        params,
        padded_a_len,
        padded_b_len,
    };
    (constants, threads)
}

} // verus!
