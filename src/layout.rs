//! Padding and packing of series into flat device buffers.
use vstd::prelude::*;

verus! {

/// Smallest multiple of `n` that is at least `x`.
pub open spec fn round_up(x: int, n: int) -> int {
    ((x + n - 1) / n) * n
}

/// `round_up(x, n)` is the least multiple of `n` that is at least `x`.
pub proof fn lemma_round_up_bounds(x: int, n: int)
    requires
        x >= 0,
        n > 0,
    ensures
        x <= round_up(x, n) < x + n,
        round_up(x, n) % n == 0,
        x > 0 ==> round_up(x, n) > 0,
{
    let q = (x + n - 1) / n;
    assert(q * n <= x + n - 1 && q * n > x - 1 && (q * n) % n == 0) by (nonlinear_arith)
        requires q == (x + n - 1) / n, n > 0;
}

/// Rounds `x` up to the next multiple of `n`.
pub fn next_multiple_of_n(x: u64, n: u64) -> (r: u64)
    requires
        n > 0,
        x + n - 1 <= u64::MAX,
    ensures
        r as int == round_up(x as int, n as int),
        r >= x,
        r < x + n,
        r % n == 0,
{
    let q = (x + (n - 1)) / n;
    proof {
        let qi = q as int;
        let ni = n as int;
        let xi = x as int;
        assert(qi * ni <= xi + ni - 1 && qi * ni > xi - 1 && (qi * ni) % ni == 0)
            by (nonlinear_arith)
            requires qi == (xi + ni - 1) / ni, ni > 0;
    }
    q * n
}

/// `s` padded with `zero` up to `len` samples.
pub open spec fn padded<T>(s: Seq<T>, len: int, zero: T) -> Seq<T> {
    Seq::new(len as nat, |t: int| if t < s.len() { s[t] } else { zero })
}

/// All series of `a` have length `n`.
pub open spec fn all_len<T>(a: Seq<Vec<T>>, n: int) -> bool {
    forall|i: int| 0 <= i < a.len() ==> (#[trigger] a[i])@.len() == n
}

/// Series `i` of a packed buffer whose series are `len` samples apart.
pub open spec fn packed_series<T>(packed: Seq<T>, i: int, len: int) -> Seq<T> {
    packed.subrange(i * len, i * len + len)
}

/// Packs equal-length series into one flat buffer, each padded with `zero`
/// up to the next multiple of `pad`.
pub fn flatten_and_pad<T: Copy>(a: &Vec<Vec<T>>, pad: usize, zero: T) -> (r: Vec<T>)
    requires
        a@.len() > 0,
        pad > 0,
        all_len(a@, a@[0]@.len() as int),
        a@[0]@.len() + pad <= u64::MAX,
        a@.len() * round_up(a@[0]@.len() as int, pad as int) <= usize::MAX,
    ensures
        r@.len() == a@.len() * round_up(a@[0]@.len() as int, pad as int),
        forall|i: int|
            0 <= i < a@.len() ==> #[trigger] packed_series(r@, i, round_up(a@[0]@.len() as int, pad as int))
                == padded(a@[i]@, round_up(a@[0]@.len() as int, pad as int), zero),
{
    let n = a[0].len();
    let new_len_u64 = next_multiple_of_n(n as u64, pad as u64);
    proof {
        assert(new_len_u64 <= a@.len() * new_len_u64) by (nonlinear_arith)
            requires a@.len() >= 1;
    }
    let new_len = new_len_u64 as usize;
    let ghost p = new_len as int;
    let mut padded_buf: Vec<T> = Vec::new();
    let mut i: usize = 0;
    while i < a.len()
        invariant
            0 <= i <= a@.len(),
            p == new_len,
            new_len >= n,
            n == a@[0]@.len(),
            all_len(a@, n as int),
            a@.len() * p <= usize::MAX,
            padded_buf@.len() == i * p,
            forall|i2: int|
                0 <= i2 < i ==> #[trigger] packed_series(padded_buf@, i2, p) == padded(a@[i2]@, p, zero),
        decreases a@.len() - i,
    {
        let ghost before = padded_buf@;
        let row = &a[i];
        let mut j: usize = 0;
        while j < new_len
            invariant
                0 <= i < a@.len(),
                p == new_len,
                new_len >= n,
                row@.len() == n,
                row == a@[i as int],
                a@.len() * p <= usize::MAX,
                j <= new_len,
                padded_buf@.len() == i * p + j,
                padded_buf@.subrange(0, i * p) == before,
                before.len() == i * p,
                forall|t: int|
                    0 <= t < j ==> #[trigger] padded_buf@[i * p + t] == (if t < n { row@[t] } else {
                        zero
                    }),
            decreases new_len - j,
        {
            proof {
                assert((i + 1) * p <= a@.len() * p) by (nonlinear_arith)
                    requires i + 1 <= a@.len(), p >= 0;
                assert((i + 1) * p == i * p + p) by (nonlinear_arith);
            }
            let v = if j < n { row[j] } else { zero };
            padded_buf.push(v);
            j = j + 1;
        }
        proof {
            assert((i + 1) * p == i * p + p) by (nonlinear_arith);
            assert forall|t: int| 0 <= t < p implies #[trigger] packed_series(padded_buf@, i as int, p)[t]
                == padded(a@[i as int]@, p, zero)[t] by {
                assert(padded_buf@[i * p + t] == (if t < n { row@[t] } else { zero }));
            }
            assert(packed_series(padded_buf@, i as int, p) =~= padded(a@[i as int]@, p, zero));
            assert forall|i2: int| 0 <= i2 < i + 1 implies #[trigger] packed_series(padded_buf@, i2, p)
                == padded(a@[i2]@, p, zero) by {
                if i2 < i {
                    assert(i2 * p + p <= i * p) by (nonlinear_arith)
                        requires i2 < i, p >= 0;
                    assert(i2 * p >= 0) by (nonlinear_arith)
                        requires i2 >= 0, p >= 0;
                    assert(packed_series(padded_buf@, i2, p) =~= packed_series(before, i2, p));
                }
            }
        }
        i = i + 1;
    }
    padded_buf
}

/// Extending a series with zeros that stay within its padded length does not
/// change the padded series: the packed buffers, and all that the engine
/// computes from them, are the same.
pub proof fn lemma_padding_invariance<T>(s: Seq<T>, extra: nat, len: int, zero: T)
    requires
        s.len() + extra <= len,
    ensures
        padded(s + Seq::new(extra, |t: int| zero), len, zero) == padded(s, len, zero),
{
    assert(padded(s + Seq::new(extra, |t: int| zero), len, zero) =~= padded(s, len, zero));
}

} // verus!
