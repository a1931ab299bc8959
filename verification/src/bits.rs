use vstd::prelude::*;
use vstd::arithmetic::power::pow;
use vstd::arithmetic::power2::{pow2, lemma_pow2_unfold, lemma_pow2_pos};
use vstd::arithmetic::div_mod::{lemma_div_denominator, lemma_div_is_ordered};

verus! {

/// The 32 bits of `n` in reverse order, computed by swapping ever larger
/// blocks of bits.
pub open spec fn reverse32(n: u32) -> u32 {
    let n1 = ((n & 0xAAAAAAAA) >> 1) | ((n & 0x55555555) << 1);
    let n2 = ((n1 & 0xCCCCCCCC) >> 2) | ((n1 & 0x33333333) << 2);
    let n3 = ((n2 & 0xF0F0F0F0) >> 4) | ((n2 & 0x0F0F0F0F) << 4);
    let n4 = ((n3 & 0xFF00FF00) >> 8) | ((n3 & 0x00FF00FF) << 8);
    (n4 >> 16) | (n4 << 16)
}

/// Bit `i` of `reverse32(n)` is bit `31 - i` of `n`.
pub proof fn lemma_reverse32_bits(n: u32)
    ensures
        forall|i: u32| i < 32 ==> #[trigger] ((reverse32(n) >> i) & 1) == (n >> (31 - i) as u32) & 1,
{
    let r = reverse32(n);
    assert(forall|i: u32| i < 32 ==> #[trigger] ((r >> i) & 1) == (n >> (31 - i) as u32) & 1)
        by (bit_vector)
        requires
            r == reverse32(n),
    ;
}

/// Reversing the bits twice gives the value back.
pub proof fn lemma_bit_reverse_involution(n: u32)
    ensures
        reverse32(reverse32(n)) == n,
{
    assert(reverse32(reverse32(n)) == n) by (bit_vector);
}

/// Reverses the order of the 32 bits of `n`.
pub fn bit_reverse(n: u32) -> (r: u32)
    ensures
        r == reverse32(n),
{
    let n1 = ((n & 0xAAAAAAAA) >> 1) | ((n & 0x55555555) << 1);
    let n2 = ((n1 & 0xCCCCCCCC) >> 2) | ((n1 & 0x33333333) << 2);
    let n3 = ((n2 & 0xF0F0F0F0) >> 4) | ((n2 & 0x0F0F0F0F) << 4);
    let n4 = ((n3 & 0xFF00FF00) >> 8) | ((n3 & 0x00FF00FF) << 8);
    (n4 >> 16) | (n4 << 16)
}

/// The number of bits needed to write `n` (0 for `n <= 0`): the Vorbis
/// `ilog`, for which ilog(1) = 1, ilog(2) = 2, ilog(4) = 3.
pub open spec fn ilog_spec(n: int) -> int
    decreases n,
{
    if n <= 0 {
        0
    } else {
        1 + ilog_spec(n / 2)
    }
}

proof fn lemma_ilog_div(n: int, k: nat)
    requires
        n >= pow2(k),
    ensures
        ilog_spec(n) == k + ilog_spec(n / pow2(k) as int),
    decreases k,
{
    lemma_pow2_pos(k);
    if k == 0 {
        assert(pow2(0) == 1) by { vstd::arithmetic::power2::lemma2_to64(); }
    } else {
        lemma_pow2_unfold(k);
        let k1 = (k - 1) as nat;
        lemma_pow2_pos(k1);
        assert(n / 2 >= pow2(k1)) by {
            lemma_div_is_ordered(2 * pow2(k1) as int, n, 2);
        }
        lemma_ilog_div(n / 2, k1);
        lemma_div_denominator(n, 2, pow2(k1) as int);
        assert(2 * pow2(k1) == pow2(k));
    }
}

proof fn lemma_ilog_range(n: int, k: nat)
    requires
        k >= 1,
        pow2((k - 1) as nat) <= n < pow2(k),
    ensures
        ilog_spec(n) == k,
    decreases k,
{
    lemma_pow2_unfold(k);
    let k1 = (k - 1) as nat;
    if k == 1 {
        assert(pow2(0) == 1 && pow2(1) == 2) by { vstd::arithmetic::power2::lemma2_to64(); }
        assert(n == 1);
        assert(ilog_spec(0) == 0);
    } else {
        lemma_pow2_unfold(k1);
        lemma_ilog_range(n / 2, k1);
    }
}

/// `ilog_spec(n)` is the `k` with 2^(k-1) <= n < 2^k.
pub proof fn lemma_ilog_bounds(n: int)
    requires
        n > 0,
    ensures
        1 <= ilog_spec(n),
        pow2((ilog_spec(n) - 1) as nat) <= n < pow2(ilog_spec(n) as nat),
    decreases n,
{
    if n == 1 {
        assert(ilog_spec(0) == 0);
        assert(pow2(0) == 1 && pow2(1) == 2) by { vstd::arithmetic::power2::lemma2_to64(); }
    } else {
        lemma_ilog_bounds(n / 2);
        let k = ilog_spec(n / 2);
        lemma_pow2_unfold(k as nat);
        lemma_pow2_unfold((k + 1) as nat);
    }
}

fn log2_4(n: usize) -> (r: i32)
    requires
        n < 16,
    ensures
        r == ilog_spec(n as int),
{
    assert(ilog_spec(0) == 0);
    assert(ilog_spec(1) == 1);
    assert(ilog_spec(2) == 2 && ilog_spec(3) == 2);
    assert(ilog_spec(4) == 3 && ilog_spec(5) == 3 && ilog_spec(6) == 3 && ilog_spec(7) == 3);
    assert(ilog_spec(8) == 4 && ilog_spec(9) == 4 && ilog_spec(10) == 4 && ilog_spec(11) == 4);
    assert(ilog_spec(12) == 4 && ilog_spec(13) == 4 && ilog_spec(14) == 4 && ilog_spec(15) == 4);
    if n == 0 {
        0
    } else if n == 1 {
        1
    } else if n < 4 {
        2
    } else if n < 8 {
        3
    } else {
        4
    }
}

proof fn lemma_ilog_branch(n: int, s: nat, t: int)
    requires
        s >= 1,
        n >= pow2((s - 1) as nat),
        t == n / pow2(s) as int,
    ensures
        ilog_spec(n) == s + ilog_spec(t),
{
    lemma_pow2_pos(s);
    if n >= pow2(s) {
        lemma_ilog_div(n, s);
    } else {
        assert(t == 0) by { vstd::arithmetic::div_mod::lemma_basic_div(n, pow2(s) as int); }
        lemma_ilog_range(n, s);
    }
}

/// The Vorbis `ilog`: the number of bits of `n`, and 0 for `n <= 0`.
pub fn ilog(n: i32) -> (r: i32)
    ensures
        r == ilog_spec(n as int),
        0 <= r <= 31,
        n > 0 ==> r >= 1 && pow2((r - 1) as nat) <= n && n < pow2(r as nat),
{
    proof {
        vstd::arithmetic::power2::lemma2_to64();
        if n > 0 {
            lemma_ilog_bounds(n as int);
            if ilog_spec(n as int) > 31 {
                vstd::arithmetic::power2::lemma_pow2_strictly_increases(31, (ilog_spec(n as int) - 1) as nat);
            }
        }
    }
    if n <= 0 {
        return 0;
    }
    let u = n as u32;
    let r = if u < 16384 {
        if u < 16 {
            log2_4(u as usize)
        } else if u < 512 {
            assert(u >> 5 == u / 32) by (bit_vector);
            proof { lemma_ilog_branch(u as int, 5, (u / 32) as int); }
            5 + log2_4((u >> 5) as usize)
        } else {
            assert(u >> 10 == u / 1024) by (bit_vector);
            proof { lemma_ilog_branch(u as int, 10, (u / 1024) as int); }
            10 + log2_4((u >> 10) as usize)
        }
    } else if u < 16777216 {
        if u < 524288 {
            assert(u >> 15 == u / 32768) by (bit_vector);
            proof { lemma_ilog_branch(u as int, 15, (u / 32768) as int); }
            15 + log2_4((u >> 15) as usize)
        } else {
            assert(u >> 20 == u / 1048576) by (bit_vector);
            proof { lemma_ilog_branch(u as int, 20, (u / 1048576) as int); }
            20 + log2_4((u >> 20) as usize)
        }
    } else if u < 536870912 {
        assert(u >> 25 == u / 33554432) by (bit_vector);
        proof { lemma_ilog_branch(u as int, 25, (u / 33554432) as int); }
        25 + log2_4((u >> 25) as usize)
    } else {
        assert(u >> 30 == u / 1073741824) by (bit_vector);
        proof { lemma_ilog_branch(u as int, 30, (u / 1073741824) as int); }
        30 + log2_4((u >> 30) as usize)
    };
    proof { lemma_ilog_bounds(n as int); }
    r
}

/// For a block of `n = 2^k` samples, entry `i` of the table is four times
/// `i` with its low `k - 3` bits reversed: the reversal of all 32 bits,
/// shifted right by `32 - (k - 3)`, then left by 2.
pub fn compute_bitreverse(n: i32, rev: &mut Vec<u16>)
    requires
        64 <= n <= 8192,
        old(rev)@.len() >= n / 8,
    ensures
        final(rev)@.len() == old(rev)@.len(),
        forall|i: int| 0 <= i < n / 8 ==> #[trigger] final(rev)@[i] == (((reverse32(i as u32) >> (36 - ilog_spec(n as int)) as u32) << 2u32) as u16),
        forall|i: int| n / 8 <= i < old(rev)@.len() ==> #[trigger] final(rev)@[i] == old(rev)@[i],
{
    let ld = ilog(n) - 1;
    proof {
        vstd::arithmetic::power2::lemma2_to64();
        lemma_ilog_bounds(n as int);
        if ld < 6 {
            vstd::arithmetic::power2::lemma_pow2_strictly_increases((ld + 1) as nat, 6);
        }
        if ld > 13 {
            vstd::arithmetic::power2::lemma_pow2_strictly_increases(13, ld as nat);
        }
    }
    let n8 = n >> 3;
    assert(n >> 3 == n / 8) by (bit_vector);
    let mut i: i32 = 0;
    while i < n8
        invariant
            0 <= i <= n8,
            n8 == n / 8,
            64 <= n <= 8192,
            6 <= ld <= 13,
            ld == ilog_spec(n as int) - 1,
            rev@.len() == old(rev)@.len(),
            old(rev)@.len() >= n / 8,
            forall|j: int| 0 <= j < i ==> #[trigger] rev@[j] == (((reverse32(j as u32) >> (36 - ilog_spec(n as int)) as u32) << 2u32) as u16),
            forall|j: int| n / 8 <= j < old(rev)@.len() ==> #[trigger] rev@[j] == old(rev)@[j],
        decreases n8 - i,
    {
        let shift: u32 = (32 - ld + 3) as u32;
        let v = (bit_reverse(i as u32) >> shift) << 2;
        rev.set(i as usize, v as u16);
        i = i + 1;
    }
}

/// The number of values per dimension of a lookup-type-1 codebook: the
/// largest `r` with `r^dim <= entries`.
pub fn lookup1_values(entries: i32, dim: i32) -> (r: i32)
    requires
        entries >= 0,
        dim >= 1,
    ensures
        0 <= r <= entries,
        pow(r as int, dim as nat) <= entries,
        entries < pow(r as int + 1, dim as nat),
{
    let mut lo: u64 = 0;
    let mut hi: u64 = entries as u64 + 1;
    proof {
        vstd::arithmetic::power::lemma0_pow(dim as nat);
        vstd::arithmetic::power::lemma_pow1(hi as int);
        vstd::arithmetic::power::lemma_pow_increases(hi as nat, 1, dim as nat);
    }
    while hi - lo > 1
        invariant
            lo < hi <= entries as u64 + 1,
            entries >= 0,
            dim >= 1,
            pow(lo as int, dim as nat) <= entries,
            entries < pow(hi as int, dim as nat),
        decreases hi - lo,
    {
        let mid = lo + (hi - lo) / 2;
        if power_exceeds(mid, dim as u32, entries as u64) {
            hi = mid;
        } else {
            lo = mid;
        }
    }
    lo as i32
}

/// Whether `base^dim` is greater than `limit`.
fn power_exceeds(base: u64, dim: u32, limit: u64) -> (r: bool)
    requires
        base <= 0x8000_0000,
        limit < 0x8000_0000,
    ensures
        r == (pow(base as int, dim as nat) > limit),
{
    let mut acc: u64 = 1;
    let mut k: u32 = 0;
    proof { vstd::arithmetic::power::lemma_pow0(base as int); }
    while k < dim
        invariant
            k <= dim,
            base <= 0x8000_0000,
            limit < 0x8000_0000,
            acc == pow(base as int, k as nat),
            acc <= 0x8000_0000,
            k == 0 || acc <= limit,
        decreases dim - k,
    {
        proof {
            vstd::arithmetic::power::lemma_pow_adds(base as int, k as nat, 1);
            vstd::arithmetic::power::lemma_pow1(base as int);
            vstd::arithmetic::mul::lemma_mul_upper_bound(acc as int, 0x8000_0000, base as int, 0x8000_0000);
        }
        let ghost prev = acc;
        acc = acc * base;
        k = k + 1;
        if acc > limit {
            proof {
                assert(base > 0) by (nonlinear_arith)
                    requires acc == prev * base, acc > 0, base >= 0;
                vstd::arithmetic::power::lemma_pow_increases(base as nat, k as nat, dim as nat);
            }
            return true;
        }
    }
    acc > limit
}

/// The floor-1 line through `(x0, y0)` and `(x1, y1)` evaluated at `x`,
/// with the offset from `y0` rounded toward `y0`.
pub open spec fn predict_point_spec(x: int, x0: int, x1: int, y0: int, y1: int) -> int {
    let dy = y1 - y0;
    let adx = x1 - x0;
    let ady = if dy < 0 { -dy } else { dy };
    let off = (ady * (x - x0)) / adx;
    if dy < 0 { y0 - off } else { y0 + off }
}

/// `a / b` rounded toward zero, as integer division in Rust rounds.
pub open spec fn div_toward_zero(a: int, b: int) -> int {
    let q = (if a < 0 { -a } else { a }) / (if b < 0 { -b } else { b });
    if (a < 0) != (b < 0) { -q } else { q }
}

/// The value that predicting at `x` from `(x0, y0)` and `(x1, y1)` gives
/// for any inputs: the offset `|y1 - y0| * (x - x0) / (x1 - x0)`, rounded
/// toward zero, taken from `y0` toward `y1`.
pub open spec fn predict_value(x: int, x0: int, x1: int, y0: int, y1: int) -> int {
    let dy = y1 - y0;
    let ady = if dy < 0 { -dy } else { dy };
    let off = div_toward_zero(ady * (x - x0), x1 - x0);
    if dy < 0 { y0 - off } else { y0 + off }
}

/// Between its two neighbours the prediction is the line's value there,
/// and lies between their values.
pub proof fn lemma_predict_between(x: int, x0: int, x1: int, y0: int, y1: int)
    requires
        x0 <= x <= x1,
        x0 < x1,
    ensures
        predict_value(x, x0, x1, y0, y1) == predict_point_spec(x, x0, x1, y0, y1),
        (y0 <= predict_value(x, x0, x1, y0, y1) <= y1) || (y1 <= predict_value(x, x0, x1, y0, y1) <= y0),
{
    let dy = y1 - y0;
    let ady = if dy < 0 { -dy } else { dy };
    let adx = x1 - x0;
    let d = x - x0;
    assert(0 <= ady * d <= ady * adx) by (nonlinear_arith)
        requires 0 <= ady, 0 <= d <= adx;
    let err = ady * d;
    vstd::arithmetic::div_mod::lemma_div_is_ordered(err, ady * adx, adx);
    vstd::arithmetic::mul::lemma_mul_is_commutative(ady, adx);
    vstd::arithmetic::div_mod::lemma_div_by_multiple(ady, adx);
    vstd::arithmetic::div_mod::lemma_div_pos_is_pos(err, adx);
}

/// Predicts the floor value at `x` from its two neighbours.
pub fn predict_point(x: i32, x0: i32, x1: i32, y0: i32, y1: i32) -> (r: i32)
    requires
        x0 != x1,
        i32::MIN <= predict_value(x as int, x0 as int, x1 as int, y0 as int, y1 as int) <= i32::MAX,
    ensures
        r == predict_value(x as int, x0 as int, x1 as int, y0 as int, y1 as int),
        x0 <= x <= x1 && x0 < x1 ==> r == predict_point_spec(x as int, x0 as int, x1 as int, y0 as int, y1 as int)
            && ((y0 <= r <= y1) || (y1 <= r <= y0)),
{
    let dy: i128 = y1 as i128 - y0 as i128;
    let adx: i128 = x1 as i128 - x0 as i128;
    let ady: i128 = if dy < 0 { -dy } else { dy };
    let d: i128 = x as i128 - x0 as i128;
    assert(-0x1_0000_0000 <= d <= 0x1_0000_0000);
    assert(0 <= ady <= 0x1_0000_0000);
    assert(-0x1_0000_0000_0000_0000 <= ady * d <= 0x1_0000_0000_0000_0000) by (nonlinear_arith)
        requires -0x1_0000_0000 <= d <= 0x1_0000_0000, 0 <= ady <= 0x1_0000_0000;
    let err: i128 = ady * d;
    let aerr: i128 = if err < 0 { -err } else { err };
    let aadx: i128 = if adx < 0 { -adx } else { adx };
    let q: i128 = aerr / aadx;
    assert(0 <= q <= aerr) by {
        vstd::arithmetic::div_mod::lemma_div_pos_is_pos(aerr as int, aadx as int);
        vstd::arithmetic::div_mod::lemma_div_is_ordered_by_denominator(aerr as int, 1, aadx as int);
    }
    let off: i128 = if (err < 0) != (adx < 0) { -q } else { q };
    proof {
        if x0 <= x && x < x1 + 1 && x0 < x1 {
            lemma_predict_between(x as int, x0 as int, x1 as int, y0 as int, y1 as int);
        }
    }
    if dy < 0 {
        (y0 as i128 - off) as i32
    } else {
        (y0 as i128 + off) as i32
    }
}

/// `low` is the position before `m` holding the largest value below
/// `x[n]` (the first such position where several hold it).
pub open spec fn is_low_neighbor(x: Seq<u16>, n: int, m: int, low: int) -> bool {
    &&& 0 <= low < m
    &&& x[low] < x[n]
    &&& forall|j: int| 0 <= j < m && x[j] < x[n] ==> x[j] <= x[low]
    &&& forall|j: int| 0 <= j < low && x[j] < x[n] ==> x[j] < x[low]
}

/// `high` is the position before `m` holding the smallest value above
/// `x[n]` (the first such position where several hold it).
pub open spec fn is_high_neighbor(x: Seq<u16>, n: int, m: int, high: int) -> bool {
    &&& 0 <= high < m
    &&& x[high] > x[n]
    &&& forall|j: int| 0 <= j < m && x[j] > x[n] ==> x[j] >= x[high]
    &&& forall|j: int| 0 <= j < high && x[j] > x[n] ==> x[j] > x[high]
}

/// Finds, among the first `n` values of `x`, the nearest one below and the
/// nearest one above `x[n]`; an output is left as it was when there is none.
pub fn neighbors(x: &[u16], n: usize, plow: &mut i32, phigh: &mut i32)
    requires
        n < x@.len(),
        n < 0x7fff_ffff,
    ensures
        (exists|j: int| 0 <= j < n && x@[j] < x@[n as int]) ==> is_low_neighbor(x@, n as int, n as int, *final(plow) as int),
        !(exists|j: int| 0 <= j < n && x@[j] < x@[n as int]) ==> *final(plow) == *old(plow),
        (exists|j: int| 0 <= j < n && x@[j] > x@[n as int]) ==> is_high_neighbor(x@, n as int, n as int, *final(phigh) as int),
        !(exists|j: int| 0 <= j < n && x@[j] > x@[n as int]) ==> *final(phigh) == *old(phigh),
{
    let mut low: i32 = -1;
    let mut high: i32 = 65536;
    let xn = x[n] as i32;
    let mut i: usize = 0;
    while i < n
        invariant
            i <= n,
            n < x@.len(),
            n < 0x7fff_ffff,
            xn == x@[n as int],
            (exists|j: int| 0 <= j < i && x@[j] < xn) ==> (is_low_neighbor(x@, n as int, i as int, *plow as int) && low == x@[*plow as int]),
            !(exists|j: int| 0 <= j < i && x@[j] < xn) ==> (*plow == *old(plow) && low == -1),
            (exists|j: int| 0 <= j < i && x@[j] > xn) ==> (is_high_neighbor(x@, n as int, i as int, *phigh as int) && high == x@[*phigh as int]),
            !(exists|j: int| 0 <= j < i && x@[j] > xn) ==> (*phigh == *old(phigh) && high == 65536),
        decreases n - i,
    {
        let xi = x[i] as i32;
        if xi > low && xi < xn {
            *plow = i as i32;
            low = xi;
        }
        if xi < high && xi > xn {
            *phigh = i as i32;
            high = xi;
        }
        i = i + 1;
    }
}

/// Whether `data` is the six bytes "vorbis".
pub fn vorbis_validate(data: &[u8]) -> (r: bool)
    ensures
        r == (data@ == seq![118u8, 111u8, 114u8, 98u8, 105u8, 115u8]),
{
    if data.len() != 6 {
        return false;
    }
    let r = data[0] == 118 && data[1] == 111 && data[2] == 114 && data[3] == 98
        && data[4] == 105 && data[5] == 115;
    if r {
        assert(data@ =~= seq![118u8, 111u8, 114u8, 98u8, 105u8, 115u8]);
    }
    r
}

} // verus!
