use vstd::prelude::*;
use vstd::arithmetic::power2::{pow2, lemma_pow2_adds, lemma_pow2_pos, lemma_pow2_unfold};
use crate::bits::{bit_reverse, reverse32, lemma_bit_reverse_involution};
use crate::types::Codebook;

verus! {

/// Codeword length of an entry that has no code.
pub const NO_CODE: u8 = 255;

/// Codes of at most this many bits are decoded through the fast table.
pub const STB_FAST_HUFFMAN_LENGTH: i32 = 10;

/// The number of entries of the fast Huffman table.
pub const FAST_HUFFMAN_TABLE_SIZE: i32 = 1024;

/// `2^(32 - l)`: how many 32-bit strings begin with a given code of `l` bits.
pub open spec fn code_width(l: int) -> int {
    pow2((32 - l) as nat) as int
}

/// A code of `l` bits, written in the top bits of `s`: the strings that
/// begin with it are `s .. s + 2^(32 - l)`.
pub open spec fn code_ok(s: int, l: int) -> bool {
    &&& 1 <= l <= 31
    &&& 0 <= s
    &&& s + code_width(l) <= pow2(32)
    &&& s % code_width(l) == 0
}

/// Neither of the two codes is a prefix of the other.
pub open spec fn codes_disjoint(s1: int, l1: int, s2: int, l2: int) -> bool {
    s1 + code_width(l1) <= s2 || s2 + code_width(l2) <= s1
}

/// Bits `b` whose low `l` bits are `a` reverse into bits whose top `l`
/// bits are those of `a` reversed.
proof fn lemma_reverse_prefix(a: u32, b: u32, l: u32)
    by (bit_vector)
    requires
        1 <= l <= 31,
        b & (((1u32 << l) - 1) as u32) == a,
    ensures
        reverse32(b) >> ((32 - l) as u32) == reverse32(a) >> ((32 - l) as u32),
{
}

/// A code of `l` bits written in the top bits of `reverse32(a)` is, first
/// bit lowest, `a`, below `2^l`.
proof fn lemma_reverse_low_zero(a: u32, l: u32)
    by (bit_vector)
    requires
        1 <= l <= 31,
        reverse32(a) & (((1u32 << ((32 - l) as u32)) - 1) as u32) == 0,
    ensures
        a < (1u32 << l),
{
}

/// A value below `2^l` reverses into one whose low `32 - l` bits are zero.
proof fn lemma_reverse_low_zero_conv(a: u32, l: u32)
    by (bit_vector)
    requires
        1 <= l <= 31,
        a < (1u32 << l),
    ensures
        reverse32(a) & (((1u32 << ((32 - l) as u32)) - 1) as u32) == 0,
{
}

/// Bits whose reversals agree in their top `l` bits agree in their low `l`
/// bits.
proof fn lemma_reverse_prefix_conv(a: u32, b: u32, l: u32)
    by (bit_vector)
    requires
        1 <= l <= 31,
        reverse32(b) >> ((32 - l) as u32) == reverse32(a) >> ((32 - l) as u32),
    ensures
        b & (((1u32 << l) - 1) as u32) == a & (((1u32 << l) - 1) as u32),
{
}

/// `x % 2^n` is `x` with its low `n` bits kept, and `2^n` is `1 << n`.
proof fn lemma_mod_mask(x: u32, n: nat)
    requires
        n < 32,
    ensures
        x as int % pow2(n) as int == x & (((1u32 << n as u32) - 1) as u32),
        pow2(n) == 1u32 << n as u32,
{
    vstd::bits::lemma_u32_pow2_no_overflow(n);
    vstd::bits::lemma_u32_shl_is_mul(1, n as u32);
    vstd::bits::lemma_u32_low_bits_mask_is_mod(x, n);
}

/// A code written in the top `l` bits (`code_ok`) is below `2^l` once
/// reversed.
pub proof fn lemma_code_fits(a: u32, l: int)
    requires
        code_ok(reverse32(a) as int, l),
    ensures
        (a as int) < pow2(l as nat),
{
    lemma_mod_mask(reverse32(a), (32 - l) as nat);
    lemma_reverse_low_zero(a, l as u32);
    lemma_mod_mask(0, l as nat);
}

/// Two codes written in the top bits (`code_ok`) that are disjoint do not,
/// once reversed (first bit lowest), begin one with the other: the bits `b`
/// do not have `a` as their low `la` bits.
pub proof fn lemma_disjoint_not_prefix(a: u32, la: int, b: u32, lb: int)
    requires
        code_ok(reverse32(a) as int, la),
        code_ok(reverse32(b) as int, lb),
        la <= lb,
        codes_disjoint(reverse32(a) as int, la, reverse32(b) as int, lb),
    ensures
        b as int % pow2(la as nat) as int != a as int,
{
    if b as int % pow2(la as nat) as int == a as int {
        let k = (32 - la) as nat;
        lemma_mod_mask(b, la as nat);
        lemma_reverse_prefix(a, b, la as u32);
        let ra = reverse32(a) as int;
        let rb = reverse32(b) as int;
        let w = pow2(k) as int;
        vstd::bits::lemma_u32_shr_is_div(reverse32(a), k as u32);
        vstd::bits::lemma_u32_shr_is_div(reverse32(b), k as u32);
        lemma_pow2_pos(k);
        assert(ra / w == rb / w);
        vstd::arithmetic::div_mod::lemma_fundamental_div_mod(ra, w);
        vstd::arithmetic::div_mod::lemma_fundamental_div_mod(rb, w);
        vstd::arithmetic::div_mod::lemma_mod_pos_bound(rb, w);
        assert(ra % w == 0);
        assert(ra <= rb < ra + w);
        lemma_pow2_pos((32 - lb) as nat);
        assert(false);
    }
}

/// The reversal of a code `a` of `l` bits (first bit lowest, below `2^l`)
/// is a multiple of `2^(32 - l)`, and bits `b` beginning with the code
/// reverse into `reverse32(a) .. reverse32(a) + 2^(32 - l)`.
pub proof fn lemma_code_block(a: u32, l: int, b: u32)
    requires
        1 <= l <= 31,
        (a as int) < pow2(l as nat),
    ensures
        reverse32(a) as int % pow2((32 - l) as nat) as int == 0,
        b as int % pow2(l as nat) as int == a as int
            ==> reverse32(a) <= reverse32(b) < reverse32(a) + pow2((32 - l) as nat),
{
    let k = (32 - l) as nat;
    lemma_mod_mask(a, l as nat);
    lemma_mod_mask(reverse32(a), k);
    lemma_reverse_low_zero_conv(a, l as u32);
    if b as int % pow2(l as nat) as int == a as int {
        lemma_mod_mask(b, l as nat);
        lemma_reverse_prefix(a, b, l as u32);
        let ra = reverse32(a) as int;
        let rb = reverse32(b) as int;
        let w = pow2(k) as int;
        vstd::bits::lemma_u32_shr_is_div(reverse32(a), k as u32);
        vstd::bits::lemma_u32_shr_is_div(reverse32(b), k as u32);
        lemma_pow2_pos(k);
        vstd::arithmetic::div_mod::lemma_fundamental_div_mod(ra, w);
        vstd::arithmetic::div_mod::lemma_fundamental_div_mod(rb, w);
        vstd::arithmetic::div_mod::lemma_mod_pos_bound(rb, w);
    }
}

/// Two reversed codes in the same block of `2^(32 - l)` values agree, first
/// bit lowest, in their low `l` bits.
pub proof fn lemma_same_block(a: u32, b: u32, l: int)
    requires
        1 <= l <= 31,
        (a as int) < pow2(l as nat),
        reverse32(a) <= reverse32(b) < reverse32(a) + pow2((32 - l) as nat),
        reverse32(a) as int % pow2((32 - l) as nat) as int == 0,
    ensures
        b as int % pow2(l as nat) as int == a as int,
{
    let k = (32 - l) as nat;
    let ra = reverse32(a) as int;
    let rb = reverse32(b) as int;
    let w = pow2(k) as int;
    lemma_pow2_pos(k);
    vstd::arithmetic::div_mod::lemma_fundamental_div_mod(ra, w);
    vstd::arithmetic::div_mod::lemma_fundamental_div_mod(rb, w);
    vstd::arithmetic::div_mod::lemma_mod_pos_bound(rb, w);
    assert(ra / w == rb / w) by {
        vstd::arithmetic::div_mod::lemma_fundamental_div_mod_converse_div(rb, w, ra / w, rb - ra);
    }
    vstd::bits::lemma_u32_shr_is_div(reverse32(a), k as u32);
    vstd::bits::lemma_u32_shr_is_div(reverse32(b), k as u32);
    lemma_reverse_prefix_conv(a, b, l as u32);
    lemma_mod_mask(a, l as nat);
    lemma_mod_mask(b, l as nat);
    vstd::arithmetic::div_mod::lemma_small_mod(a as nat, pow2(l as nat));
}

/// How many of the first `i` lengths give an entry a code.
pub open spec fn count_used(len: Seq<u8>, i: int) -> int
    decreases i,
{
    if i <= 0 {
        0
    } else {
        count_used(len, i - 1) + (if len[i - 1] != NO_CODE { 1int } else { 0int })
    }
}

pub(crate) proof fn lemma_count_used_mono(len: Seq<u8>, a: int, b: int)
    requires
        0 <= a <= b,
    ensures
        count_used(len, a) <= count_used(len, b),
        count_used(len, b) - count_used(len, a) <= b - a,
        a < b && len[a] != NO_CODE ==> count_used(len, a) < count_used(len, b),
    decreases b - a,
{
    if a < b {
        lemma_count_used_mono(len, a, b - 1);
        if len[a] != NO_CODE && a < b - 1 {
            lemma_count_used_mono(len, a, a + 1);
            lemma_count_used_mono(len, a + 1, b);
        }
    }
}

proof fn lemma_width_split(a: int, b: int)
    requires
        0 <= a <= b <= 32,
    ensures
        code_width(a) == code_width(b) * pow2((b - a) as nat),
        code_width(b) <= code_width(a),
        a < b ==> 2 * code_width(b) <= code_width(a),
        code_width(a) % code_width(b) == 0,
{
    lemma_pow2_adds((32 - b) as nat, (b - a) as nat);
    lemma_pow2_pos((b - a) as nat);
    lemma_pow2_pos((32 - b) as nat);
    vstd::arithmetic::mul::lemma_mul_increases(pow2((b - a) as nat) as int, code_width(b));
    if a < b {
        lemma_pow2_unfold((b - a) as nat);
        lemma_pow2_pos((b - a - 1) as nat);
        vstd::arithmetic::mul::lemma_mul_inequality(2, pow2((b - a) as nat) as int, code_width(b));
    }
    vstd::arithmetic::div_mod::lemma_mod_multiples_basic(pow2((b - a) as nat) as int, code_width(b));
    vstd::arithmetic::mul::lemma_mul_is_commutative(pow2((b - a) as nat) as int, code_width(b));
}

proof fn lemma_aligned_finer(s: int, a: int, b: int)
    requires
        0 <= a <= b <= 32,
        s % code_width(a) == 0,
    ensures
        s % code_width(b) == 0,
{
    lemma_width_split(a, b);
    lemma_pow2_pos((32 - b) as nat);
    lemma_pow2_pos((b - a) as nat);
    vstd::arithmetic::div_mod::lemma_mod_mod(s, code_width(b), pow2((b - a) as nat) as int);
    vstd::arithmetic::mul::lemma_mul_is_commutative(pow2((b - a) as nat) as int, code_width(b));
}

proof fn lemma_aligned_add(s: int, w: int)
    requires
        w > 0,
        s % w == 0,
    ensures
        (s + w) % w == 0,
{
    vstd::arithmetic::div_mod::lemma_mod_adds(s, w, w);
    vstd::arithmetic::div_mod::lemma_mod_self_0(w);
}

/// The strings `x` (first bit on top) that begin with the code `s` of `l`
/// bits.
pub open spec fn in_code(x: int, s: int, l: int) -> bool {
    s <= x < s + code_width(l)
}

/// A code `x` of `l` bits is free after the codes `starts` (of lengths
/// `lens`): it fits, and it neither begins nor is begun by any of them.
pub open spec fn code_free(starts: Seq<int>, lens: Seq<int>, x: int, l: int) -> bool {
    &&& code_ok(x, l)
    &&& forall|t: int| 0 <= t < starts.len() ==> codes_disjoint(x, l, #[trigger] starts[t], lens[t])
}

/// `x` is the lowest free code of `l` bits after the codes `starts`.
pub open spec fn lowest_free(starts: Seq<int>, lens: Seq<int>, x: int, l: int) -> bool {
    &&& code_free(starts, lens, x, l)
    &&& forall|x2: int| 0 <= x2 < x ==> !#[trigger] code_free(starts, lens, x2, l)
}

/// The code `x` of `l` bits (first bit on top) is free after the codes of
/// the entries before `s`: `cw` holds those codes bit-reversed (first bit
/// lowest) and `ls` their lengths (`NO_CODE`: no code).
pub open spec fn code_free_after(cw: Seq<u32>, ls: Seq<u8>, s: int, x: int, l: int) -> bool {
    &&& code_ok(x, l)
    &&& forall|j: int| 0 <= j < s && ls[j] != NO_CODE
        ==> codes_disjoint(x, l, reverse32(#[trigger] cw[j]) as int, ls[j] as int)
}

/// Entry `s` has the lowest code of its length that is free after the
/// codes of the entries before it: the code the Vorbis format assigns it.
pub open spec fn lowest_code(cw: Seq<u32>, ls: Seq<u8>, s: int) -> bool {
    &&& code_free_after(cw, ls, s, reverse32(cw[s]) as int, ls[s] as int)
    &&& forall|x: int| 0 <= x < reverse32(cw[s]) ==> !#[trigger] code_free_after(cw, ls, s, x, ls[s] as int)
}

/// No code of `l` bits is free after the codes of the entries before `s`.
pub open spec fn no_free_code(cw: Seq<u32>, ls: Seq<u8>, s: int, l: int) -> bool {
    forall|x: int| !#[trigger] code_free_after(cw, ls, s, x, l)
}

/// Entry `s` of a dense codebook with lengths `len` is the first that gets
/// no code: each entry before it got the lowest free code of its length,
/// and none of its length is free.
pub open spec fn dense_code_fails_at(cw: Seq<u32>, len: Seq<u8>, s: int) -> bool {
    &&& 0 <= s < len.len()
    &&& len[s] != NO_CODE
    &&& no_free_code(cw, len, s, len[s] as int)
    &&& forall|j: int| 0 <= j < s && len[j] != NO_CODE ==> #[trigger] lowest_code(cw, len, j)
}

/// Entry `s` of a sparse codebook with lengths `len` is the first that
/// gets no code; `cw` and `cl` hold the codes and lengths of the entries
/// that have one, in order.
pub open spec fn sparse_code_fails_at(cw: Seq<u32>, cl: Seq<u8>, len: Seq<u8>, s: int) -> bool {
    &&& 0 <= s < len.len()
    &&& len[s] != NO_CODE
    &&& no_free_code(cw, cl, count_used(len, s), len[s] as int)
    &&& forall|t: int| 0 <= t < count_used(len, s) ==> #[trigger] lowest_code(cw, cl, t)
}

/// Every entry with a length can get, in order, the lowest code of its
/// length that is free after the codes of the entries before it: the
/// lengths of a dense codebook that setup accepts.
pub open spec fn dense_assignable(len: Seq<u8>) -> bool {
    exists|cw: Seq<u32>| #![trigger cw.len()] cw.len() == len.len()
        && forall|s: int| 0 <= s < len.len() && len[s] != NO_CODE ==> #[trigger] lowest_code(cw, len, s)
}

/// Two assignments that give the lowest free codes to the entries before
/// `s` give them the same codes.
proof fn lemma_lowest_codes_agree(cw1: Seq<u32>, cw2: Seq<u32>, len: Seq<u8>, s: int)
    requires
        0 <= s <= len.len(),
        forall|j: int| 0 <= j < s && len[j] != NO_CODE ==> #[trigger] lowest_code(cw1, len, j),
        forall|j: int| 0 <= j < s && len[j] != NO_CODE ==> #[trigger] lowest_code(cw2, len, j),
    ensures
        forall|j: int| 0 <= j < s && len[j] != NO_CODE ==> reverse32(#[trigger] cw1[j]) == reverse32(cw2[j]),
    decreases s,
{
    if s > 0 {
        lemma_lowest_codes_agree(cw1, cw2, len, s - 1);
        let j = s - 1;
        if len[j] != NO_CODE {
            assert(lowest_code(cw1, len, j));
            assert(lowest_code(cw2, len, j));
            lemma_free_after_agree(cw1, cw2, len, j, len[j] as int);
            let a = reverse32(cw1[j]) as int;
            let b = reverse32(cw2[j]) as int;
            if a < b {
                assert(code_free_after(cw1, len, j, a, len[j] as int));
                assert(!code_free_after(cw2, len, j, a, len[j] as int));
            } else if b < a {
                assert(code_free_after(cw2, len, j, b, len[j] as int));
                assert(!code_free_after(cw1, len, j, b, len[j] as int));
            }
        }
    }
}

/// Which codes are free after the entries before `s` depends only on
/// their codes.
proof fn lemma_free_after_agree(cw1: Seq<u32>, cw2: Seq<u32>, len: Seq<u8>, s: int, l: int)
    requires
        forall|j: int| 0 <= j < s && len[j] != NO_CODE ==> reverse32(#[trigger] cw1[j]) == reverse32(cw2[j]),
    ensures
        forall|x: int| #[trigger] code_free_after(cw1, len, s, x, l) == code_free_after(cw2, len, s, x, l),
{
    assert forall|x: int| #[trigger] code_free_after(cw1, len, s, x, l) == code_free_after(cw2, len, s, x, l) by {
        if code_free_after(cw1, len, s, x, l) {
            assert forall|j: int| 0 <= j < s && len[j] != NO_CODE
                implies codes_disjoint(x, l, reverse32(#[trigger] cw2[j]) as int, len[j] as int) by {
                assert(codes_disjoint(x, l, reverse32(cw1[j]) as int, len[j] as int));
            }
        }
        if code_free_after(cw2, len, s, x, l) {
            assert forall|j: int| 0 <= j < s && len[j] != NO_CODE
                implies codes_disjoint(x, l, reverse32(#[trigger] cw1[j]) as int, len[j] as int) by {
                assert(codes_disjoint(x, l, reverse32(cw2[j]) as int, len[j] as int));
            }
        }
    }
}

/// Lengths that can be assigned their codes do not make a dense assignment
/// fail at any entry.
pub proof fn lemma_assignable_never_fails(cw: Seq<u32>, len: Seq<u8>, s: int)
    requires
        dense_assignable(len),
    ensures
        !dense_code_fails_at(cw, len, s),
{
    if dense_code_fails_at(cw, len, s) {
        let w = choose|w: Seq<u32>| #![trigger w.len()] w.len() == len.len()
            && forall|t: int| 0 <= t < len.len() && len[t] != NO_CODE ==> #[trigger] lowest_code(w, len, t);
        lemma_lowest_codes_agree(w, cw, len, s);
        lemma_free_after_agree(w, cw, len, s, len[s] as int);
        assert(lowest_code(w, len, s));
        assert(code_free_after(w, len, s, reverse32(w[s]) as int, len[s] as int));
        assert(code_free_after(cw, len, s, reverse32(w[s]) as int, len[s] as int));
    }
}

/// `x` lies in one of the codes assigned so far.
spec fn in_assigned(starts: Seq<int>, lens: Seq<int>, x: int) -> bool {
    exists|t: int| 0 <= t < starts.len() && in_code(x, starts[t], lens[t])
}

/// `x` lies in a free subtree.
spec fn in_avail(avail: Seq<u32>, x: int) -> bool {
    exists|y: int| 1 <= y < 32 && avail[y] != 0 && in_code(x, avail[y] as int, y)
}

/// Every string lies in an assigned code or in a free subtree; the deeper
/// a free subtree, the lower it lies; and each is the upper half of its
/// parent.
spec fn frontier_inv(starts: Seq<int>, lens: Seq<int>, avail: Seq<u32>) -> bool {
    &&& forall|x: int| 0 <= x < pow2(32) ==> #[trigger] in_assigned(starts, lens, x) || in_avail(avail, x)
    &&& forall|z1: int, z2: int| 1 <= z1 < z2 < 32 && #[trigger] avail[z1] != 0 && #[trigger] avail[z2] != 0
        ==> avail[z2] < avail[z1]
    &&& forall|y: int| 1 <= y < 32 && #[trigger] avail[y] != 0 ==> (avail[y] as int) % code_width(y - 1) == code_width(y)
}

/// A free code lies in no assigned code.
proof fn lemma_free_not_assigned(starts: Seq<int>, lens: Seq<int>, x: int, l: int)
    requires
        code_free(starts, lens, x, l),
    ensures
        !in_assigned(starts, lens, x),
{
    lemma_pow2_pos((32 - l) as nat);
    if in_assigned(starts, lens, x) {
        let t = choose|t: int| 0 <= t < starts.len() && in_code(x, starts[t], lens[t]);
        assert(codes_disjoint(x, l, starts[t], lens[t]));
    }
}

/// A code of `l` bits does not start inside a subtree deeper than `l`
/// that is the upper half of its parent.
proof fn lemma_not_in_deeper(a: int, y: int, x: int, l: int)
    requires
        1 <= l < y < 32,
        a % code_width(y - 1) == code_width(y),
        x % code_width(l) == 0,
    ensures
        !in_code(x, a, y),
{
    if !in_code(x, a, y) {
        return;
    }
    lemma_aligned_finer(x, l, y - 1);
    lemma_width_split(y - 1, y);
    lemma_pow2_pos((32 - y) as nat);
    lemma_pow2_unfold(1);
    let big = code_width(y - 1);
    let w = code_width(y);
    assert(big == 2 * w) by {
        vstd::arithmetic::power2::lemma2_to64();
    }
    vstd::arithmetic::div_mod::lemma_fundamental_div_mod(a, big);
    vstd::arithmetic::div_mod::lemma_fundamental_div_mod(x, big);
    let q = a / big;
    let r = x / big;
    assert(q < r) by (nonlinear_arith)
        requires a == big * q + w, x == big * r, a <= x, w > 0, big > 0;
    assert(false) by (nonlinear_arith)
        requires a == big * q + w, x == big * r, x < a + w, q < r, big == 2 * w, w > 0;
}

/// A distance from `w(li)` to below `w(z)` lies in the upper half of one of
/// the subtrees between.
proof fn lemma_tile(z: int, li: int, d: int) -> (y: int)
    requires
        0 <= z < li <= 31,
        code_width(li) <= d < code_width(z),
    ensures
        z < y <= li,
        code_width(y) <= d < 2 * code_width(y),
        2 * code_width(y) == code_width(y - 1),
    decreases li,
{
    lemma_width_split(li - 1, li);
    lemma_pow2_unfold(1);
    vstd::arithmetic::power2::lemma2_to64();
    if d < 2 * code_width(li) {
        li
    } else {
        if li - 1 == z {
            assert(false);
        }
        lemma_tile(z, li - 1, d)
    }
}

/// While the free subtrees cover what is not assigned, the deepest free
/// subtree at most `l` deep starts the lowest free code of `l` bits.
proof fn lemma_lowest_free(starts: Seq<int>, lens: Seq<int>, avail: Seq<u32>, z: int, l: int)
    requires
        assign_inv(starts, lens, avail),
        frontier_inv(starts, lens, avail),
        1 <= z <= l <= 31,
        avail[z] != 0,
        forall|y: int| z < y <= l ==> avail[y] == 0,
    ensures
        lowest_free(starts, lens, avail[z] as int, l),
{
    let res = avail[z] as int;
    lemma_width_split(z, l);
    lemma_aligned_finer(res, z, l);
    lemma_pow2_pos((32 - l) as nat);
    assert forall|t: int| 0 <= t < starts.len() implies codes_disjoint(res, l, #[trigger] starts[t], lens[t]) by {
        assert(codes_disjoint(avail[z] as int, z, starts[t], lens[t]));
    }
    assert(code_free(starts, lens, res, l));
    assert forall|x2: int| 0 <= x2 < res implies !#[trigger] code_free(starts, lens, x2, l) by {
        if code_free(starts, lens, x2, l) {
            lemma_free_not_assigned(starts, lens, x2, l);
            assert(in_assigned(starts, lens, x2) || in_avail(avail, x2));
            let y = choose|y: int| 1 <= y < 32 && avail[y] != 0 && in_code(x2, avail[y] as int, y);
            if y > l {
                lemma_not_in_deeper(avail[y] as int, y, x2, l);
            } else if y < z {
                assert(avail[z] < avail[y]);
            }
        }
    }
}

/// With no free subtree at most `l` deep, no code of `l` bits is free.
proof fn lemma_none_free(starts: Seq<int>, lens: Seq<int>, avail: Seq<u32>, l: int)
    requires
        assign_inv(starts, lens, avail),
        frontier_inv(starts, lens, avail),
        forall|y: int| 1 <= y <= l ==> avail[y] == 0,
    ensures
        forall|x: int| !#[trigger] code_free(starts, lens, x, l),
{
    assert forall|x: int| !#[trigger] code_free(starts, lens, x, l) by {
        if code_free(starts, lens, x, l) {
            lemma_pow2_pos((32 - l) as nat);
            lemma_free_not_assigned(starts, lens, x, l);
            assert(in_assigned(starts, lens, x) || in_avail(avail, x));
            let y = choose|y: int| 1 <= y < 32 && avail[y] != 0 && in_code(x, avail[y] as int, y);
            lemma_not_in_deeper(avail[y] as int, y, x, l);
        }
    }
}

/// After the first code, of `lk` bits at 0, the free subtrees are the
/// upper halves along its path.
proof fn lemma_frontier_init(lk: int, avail: Seq<u32>)
    requires
        1 <= lk <= 31,
        avail.len() == 32,
        forall|z: int| 1 <= z <= lk ==> #[trigger] avail[z] == code_width(z),
        forall|z: int| lk < z < 32 ==> avail[z] == 0,
    ensures
        frontier_inv(seq![0int], seq![lk], avail),
{
    let starts = seq![0int];
    let lens = seq![lk];
    assert forall|x: int| 0 <= x < pow2(32) implies #[trigger] in_assigned(starts, lens, x) || in_avail(avail, x) by {
        lemma_width_split(0, 0);
        if x < code_width(lk) {
            assert(in_code(x, starts[0], lens[0]));
        } else {
            assert(code_width(0) == pow2(32));
            let y = lemma_tile(0, lk, x);
            lemma_pow2_pos((32 - y) as nat);
            assert(avail[y] != 0 && in_code(x, avail[y] as int, y));
        }
    }
    assert forall|z1: int, z2: int| 1 <= z1 < z2 < 32 && #[trigger] avail[z1] != 0 && #[trigger] avail[z2] != 0
        implies avail[z2] < avail[z1] by {
        lemma_width_split(z1, z2);
        lemma_pow2_pos((32 - z2) as nat);
    }
    assert forall|y: int| 1 <= y < 32 && #[trigger] avail[y] != 0
        implies (avail[y] as int) % code_width(y - 1) == code_width(y) by {
        lemma_width_split(y - 1, y);
        lemma_pow2_pos((32 - y) as nat);
        vstd::arithmetic::div_mod::lemma_small_mod(code_width(y) as nat, code_width(y - 1) as nat);
    }
}

/// Taking the free subtree at depth `z` for a code of `li` bits, and
/// freeing the upper halves along the path down to it, keeps the free
/// subtrees covering what is not assigned, ordered and upper halves.
proof fn lemma_frontier_step(starts: Seq<int>, lens: Seq<int>, av0: Seq<u32>, av1: Seq<u32>, z: int, li: int)
    requires
        assign_inv(starts, lens, av0),
        frontier_inv(starts, lens, av0),
        1 <= z <= li <= 31,
        av0[z] != 0,
        forall|y: int| z < y <= li ==> av0[y] == 0,
        av1.len() == 32,
        av1[z] == 0,
        forall|w: int| 1 <= w < 32 && w != z && !(z < w <= li) ==> #[trigger] av1[w] == av0[w],
        forall|w: int| z < w <= li ==> #[trigger] av1[w] == av0[z] + code_width(w),
    ensures
        frontier_inv(starts.push(av0[z] as int), lens.push(li), av1),
{
    let res = av0[z] as int;
    let s1 = starts.push(res);
    let l1 = lens.push(li);
    assert(code_ok(res, z));
    assert forall|x: int| 0 <= x < pow2(32) implies #[trigger] in_assigned(s1, l1, x) || in_avail(av1, x) by {
        assert(in_assigned(starts, lens, x) || in_avail(av0, x));
        if in_assigned(starts, lens, x) {
            let t = choose|t: int| 0 <= t < starts.len() && in_code(x, starts[t], lens[t]);
            assert(in_code(x, s1[t], l1[t]));
        } else {
            let y0 = choose|y: int| 1 <= y < 32 && av0[y] != 0 && in_code(x, av0[y] as int, y);
            if y0 != z {
                assert(av1[y0] == av0[y0]);
                assert(av1[y0] != 0 && in_code(x, av1[y0] as int, y0));
            } else if x < res + code_width(li) {
                assert(in_code(x, s1[starts.len() as int], l1[starts.len() as int]));
            } else {
                let y = lemma_tile(z, li, x - res);
                lemma_pow2_pos((32 - y) as nat);
                assert(av1[y] != 0 && in_code(x, av1[y] as int, y));
            }
        }
    }
    assert forall|z1: int, z2: int| 1 <= z1 < z2 < 32 && #[trigger] av1[z1] != 0 && #[trigger] av1[z2] != 0
        implies av1[z2] < av1[z1] by {
        let n1 = z < z1 <= li;
        let n2 = z < z2 <= li;
        if n1 && n2 {
            lemma_width_split(z1, z2);
            lemma_pow2_pos((32 - z2) as nat);
        } else if n1 {
            assert(av0[z2] < av0[z]);
            lemma_pow2_pos((32 - z1) as nat);
        } else if n2 {
            assert(z1 < z);
            assert(av0[z] < av0[z1]);
            assert(code_ok(av0[z1] as int, z1));
            lemma_aligned_finer(av0[z1] as int, z1, z);
            lemma_pow2_pos((32 - z) as nat);
            vstd::arithmetic::div_mod::lemma_fundamental_div_mod(av0[z1] as int, code_width(z));
            vstd::arithmetic::div_mod::lemma_fundamental_div_mod(res, code_width(z));
            let w = code_width(z);
            let a = av0[z1] as int;
            assert(res + w <= a) by (nonlinear_arith)
                requires a == w * (a / w), res == w * (res / w), res < a, w > 0;
            lemma_width_split(z, z2);
        } else {
            assert(av1[z1] == av0[z1] && av1[z2] == av0[z2]);
        }
    }
    assert forall|y: int| 1 <= y < 32 && #[trigger] av1[y] != 0
        implies (av1[y] as int) % code_width(y - 1) == code_width(y) by {
        if z < y <= li {
            lemma_aligned_finer(res, z, y - 1);
            lemma_width_split(y - 1, y);
            lemma_pow2_pos((32 - y) as nat);
            lemma_pow2_pos((33 - y) as nat);
            let big = code_width(y - 1);
            vstd::arithmetic::div_mod::lemma_fundamental_div_mod(res, big);
            vstd::arithmetic::div_mod::lemma_mod_multiples_vanish(res / big, code_width(y), big);
            vstd::arithmetic::div_mod::lemma_small_mod(code_width(y) as nat, big as nat);
        } else {
            assert(av1[y] == av0[y]);
        }
    }
}

/// A code start is its own reversal twice over.
proof fn lemma_rev_rev_start(st: int, l: int)
    requires
        code_ok(st, l),
    ensures
        reverse32(reverse32(st as u32)) == st,
{
    vstd::arithmetic::power2::lemma2_to64();
    lemma_pow2_pos((32 - l) as nat);
    lemma_bit_reverse_involution(st as u32);
}

/// The entries that have codes, listed in order: those before `s` are the
/// first `count_used(len, s)` of the list.
proof fn lemma_syms_index(len: Seq<u8>, syms: Seq<int>, ii: int, s: int)
    requires
        0 <= s <= ii <= len.len(),
        syms.len() == count_used(len, ii),
        forall|t: int| 0 <= t < syms.len() ==> 0 <= #[trigger] syms[t] < ii && len[syms[t]] != NO_CODE,
        forall|j: int| 0 <= j < ii && len[j] != NO_CODE ==> #[trigger] syms[count_used(len, j)] == j,
        forall|t1: int, t2: int| 0 <= t1 < t2 < syms.len() ==> #[trigger] syms[t1] < #[trigger] syms[t2],
    ensures
        forall|j: int| 0 <= j < s && len[j] != NO_CODE ==> #[trigger] count_used(len, j) < count_used(len, s),
        forall|j: int| 0 <= j < s && len[j] != NO_CODE ==> #[trigger] syms[count_used(len, j)] == j,
        forall|t: int| 0 <= t < count_used(len, s) ==> #[trigger] syms[t] < s,
{
    lemma_count_used_mono(len, s, ii);
    assert forall|j: int| 0 <= j < s && len[j] != NO_CODE implies #[trigger] count_used(len, j) < count_used(len, s) by {
        lemma_count_used_mono(len, j, s);
    }
    assert forall|t: int| 0 <= t < count_used(len, s) implies #[trigger] syms[t] < s by {
        let j = syms[t];
        if j >= s {
            let u = count_used(len, j);
            lemma_count_used_mono(len, s, j);
            assert(syms[u] == j);
            if u < t {
                assert(syms[u] < syms[t]);
            } else if u > t {
                lemma_count_used_mono(len, j, ii);
                assert(syms[t] < syms[u]);
            }
        }
    }
}

/// In a dense codebook, the codes of the entries before `s` are the first
/// `count_used(len, s)` codes assigned.
proof fn lemma_dense_free_iff(cw: Seq<u32>, len: Seq<u8>, starts: Seq<int>, lens: Seq<int>, syms: Seq<int>, ii: int, s: int)
    requires
        0 <= s <= ii <= len.len(),
        syms.len() == starts.len(),
        starts.len() == lens.len(),
        syms.len() == count_used(len, ii),
        forall|t: int| 0 <= t < syms.len() ==> 0 <= #[trigger] syms[t] < ii && len[syms[t]] != NO_CODE,
        forall|j: int| 0 <= j < ii && len[j] != NO_CODE ==> #[trigger] syms[count_used(len, j)] == j,
        forall|t1: int, t2: int| 0 <= t1 < t2 < syms.len() ==> #[trigger] syms[t1] < #[trigger] syms[t2],
        forall|t: int| 0 <= t < syms.len() ==> cw[#[trigger] syms[t]] == reverse32(starts[t] as u32),
        forall|t: int| 0 <= t < lens.len() ==> #[trigger] lens[t] == len[syms[t]],
        forall|t: int| 0 <= t < starts.len() ==> code_ok(#[trigger] starts[t], lens[t]),
    ensures
        0 <= count_used(len, s) <= syms.len(),
        forall|x: int, l: int| #[trigger] code_free_after(cw, len, s, x, l)
            == code_free(starts.subrange(0, count_used(len, s)), lens.subrange(0, count_used(len, s)), x, l),
{
    let t0 = count_used(len, s);
    lemma_count_used_mono(len, s, ii);
    lemma_count_used_mono(len, 0, s);
    lemma_syms_index(len, syms, ii, s);
    assert forall|t: int| 0 <= t < syms.len() implies reverse32(cw[#[trigger] syms[t]]) == starts[t] by {
        lemma_rev_rev_start(starts[t], lens[t]);
    }
    assert forall|x: int, l: int| #[trigger] code_free_after(cw, len, s, x, l)
        == code_free(starts.subrange(0, t0), lens.subrange(0, t0), x, l) by {
        lemma_dense_free_one(cw, len, starts, lens, syms, s, t0, x, l);
    }
}

/// One code, for `lemma_dense_free_iff`.
proof fn lemma_dense_free_one(cw: Seq<u32>, len: Seq<u8>, starts: Seq<int>, lens: Seq<int>, syms: Seq<int>,
    s: int, t0: int, x: int, l: int)
    requires
        0 <= t0 <= syms.len(),
        syms.len() == starts.len(),
        starts.len() == lens.len(),
        forall|t: int| 0 <= t < syms.len() ==> 0 <= #[trigger] syms[t] && len[syms[t]] != NO_CODE,
        forall|j: int| 0 <= j < s && len[j] != NO_CODE ==> #[trigger] count_used(len, j) < t0,
        forall|j: int| 0 <= j < s && len[j] != NO_CODE ==> #[trigger] syms[count_used(len, j)] == j,
        forall|t: int| 0 <= t < t0 ==> #[trigger] syms[t] < s,
        forall|t: int| 0 <= t < syms.len() ==> reverse32(cw[#[trigger] syms[t]]) == starts[t],
        forall|t: int| 0 <= t < lens.len() ==> #[trigger] lens[t] == len[syms[t]],
    ensures
        code_free_after(cw, len, s, x, l) == code_free(starts.subrange(0, t0), lens.subrange(0, t0), x, l),
{
    let ps = starts.subrange(0, t0);
    let pl = lens.subrange(0, t0);
    if code_free_after(cw, len, s, x, l) {
        assert forall|t: int| 0 <= t < ps.len() implies codes_disjoint(x, l, #[trigger] ps[t], pl[t]) by {
            let j = syms[t];
            assert(0 <= j < s && len[j] != NO_CODE);
            assert(codes_disjoint(x, l, reverse32(cw[j]) as int, len[j] as int));
            assert(ps[t] == starts[t] && pl[t] == lens[t]);
        }
    }
    if code_free(ps, pl, x, l) {
        assert forall|j: int| 0 <= j < s && len[j] != NO_CODE
            implies codes_disjoint(x, l, reverse32(#[trigger] cw[j]) as int, len[j] as int) by {
            let t = count_used(len, j);
            lemma_count_used_mono(len, 0, j);
            assert(0 <= t < t0);
            assert(syms[t] == j);
            assert(ps[t] == starts[t] && pl[t] == lens[t]);
            assert(codes_disjoint(x, l, ps[t], pl[t]));
        }
    }
}

/// In a sparse codebook, the codes of the first `u` entries that have one
/// are the first `u` codes assigned.
proof fn lemma_sparse_free_iff(cw: Seq<u32>, cl: Seq<u8>, starts: Seq<int>, lens: Seq<int>, u: int)
    requires
        0 <= u <= starts.len(),
        starts.len() == lens.len(),
        forall|t: int| 0 <= t < starts.len() ==> cw[t] == reverse32(#[trigger] starts[t] as u32),
        forall|t: int| 0 <= t < starts.len() ==> cl[t] == #[trigger] lens[t],
        forall|t: int| 0 <= t < starts.len() ==> code_ok(#[trigger] starts[t], lens[t]),
    ensures
        forall|x: int, l: int| #[trigger] code_free_after(cw, cl, u, x, l)
            == code_free(starts.subrange(0, u), lens.subrange(0, u), x, l),
{
    assert forall|t: int| 0 <= t < starts.len() implies reverse32(cw[t]) == #[trigger] starts[t] by {
        lemma_rev_rev_start(starts[t], lens[t]);
    }
    let ps = starts.subrange(0, u);
    let pl = lens.subrange(0, u);
    assert forall|x: int, l: int| #[trigger] code_free_after(cw, cl, u, x, l) == code_free(ps, pl, x, l) by {
        if code_free_after(cw, cl, u, x, l) {
            assert forall|t: int| 0 <= t < ps.len() implies codes_disjoint(x, l, #[trigger] ps[t], pl[t]) by {
                assert(starts[t] == reverse32(cw[t]));
                assert(cl[t] != NO_CODE);
                assert(codes_disjoint(x, l, reverse32(cw[t]) as int, cl[t] as int));
            }
        }
        if code_free(ps, pl, x, l) {
            assert forall|j: int| 0 <= j < u && cl[j] != NO_CODE
                implies codes_disjoint(x, l, reverse32(#[trigger] cw[j]) as int, cl[j] as int) by {
                assert(starts[j] == reverse32(cw[j]));
                assert(codes_disjoint(x, l, ps[j], pl[j]));
            }
        }
    }
}

/// Each entry of a dense codebook recorded so far got the lowest code of
/// its length free after the entries before it.
proof fn lemma_dense_lowest_all(cw: Seq<u32>, len: Seq<u8>, starts: Seq<int>, lens: Seq<int>, syms: Seq<int>, ii: int)
    requires
        0 <= ii <= len.len(),
        syms.len() == starts.len(),
        starts.len() == lens.len(),
        syms.len() == count_used(len, ii),
        forall|t: int| 0 <= t < syms.len() ==> 0 <= #[trigger] syms[t] < ii && len[syms[t]] != NO_CODE,
        forall|j: int| 0 <= j < ii && len[j] != NO_CODE ==> #[trigger] syms[count_used(len, j)] == j,
        forall|t1: int, t2: int| 0 <= t1 < t2 < syms.len() ==> #[trigger] syms[t1] < #[trigger] syms[t2],
        forall|t: int| 0 <= t < syms.len() ==> cw[#[trigger] syms[t]] == reverse32(starts[t] as u32),
        forall|t: int| 0 <= t < lens.len() ==> #[trigger] lens[t] == len[syms[t]],
        forall|t: int| 0 <= t < starts.len() ==> code_ok(#[trigger] starts[t], lens[t]),
        forall|t: int| 0 <= t < starts.len()
            ==> #[trigger] lowest_free(starts.subrange(0, t), lens.subrange(0, t), starts[t], lens[t]),
    ensures
        forall|j: int| 0 <= j < ii && len[j] != NO_CODE ==> #[trigger] lowest_code(cw, len, j),
{
    assert forall|j: int| 0 <= j < ii && len[j] != NO_CODE implies #[trigger] lowest_code(cw, len, j) by {
        let t = count_used(len, j);
        lemma_dense_free_iff(cw, len, starts, lens, syms, ii, j);
        lemma_count_used_mono(len, j, ii);
        lemma_count_used_mono(len, 0, j);
        assert(syms[t] == j);
        lemma_rev_rev_start(starts[t], lens[t]);
        assert(reverse32(cw[j]) == starts[t]);
        assert(lens[t] == len[j]);
        assert(lowest_free(starts.subrange(0, t), lens.subrange(0, t), starts[t], lens[t]));
        assert(code_free_after(cw, len, j, reverse32(cw[j]) as int, len[j] as int));
        assert forall|x: int| 0 <= x < reverse32(cw[j]) implies !#[trigger] code_free_after(cw, len, j, x, len[j] as int) by {
            assert(!code_free(starts.subrange(0, t), lens.subrange(0, t), x, lens[t]));
        }
    }
}

/// Each code of a sparse codebook recorded so far is the lowest of its
/// length free after the codes before it.
proof fn lemma_sparse_lowest_all(cw: Seq<u32>, cl: Seq<u8>, starts: Seq<int>, lens: Seq<int>)
    requires
        starts.len() == lens.len(),
        forall|t: int| 0 <= t < starts.len() ==> cw[t] == reverse32(#[trigger] starts[t] as u32),
        forall|t: int| 0 <= t < starts.len() ==> cl[t] == #[trigger] lens[t],
        forall|t: int| 0 <= t < starts.len() ==> code_ok(#[trigger] starts[t], lens[t]),
        forall|t: int| 0 <= t < starts.len()
            ==> #[trigger] lowest_free(starts.subrange(0, t), lens.subrange(0, t), starts[t], lens[t]),
    ensures
        forall|t: int| 0 <= t < starts.len() ==> #[trigger] lowest_code(cw, cl, t),
{
    assert forall|t: int| 0 <= t < starts.len() implies #[trigger] lowest_code(cw, cl, t) by {
        lemma_sparse_free_iff(cw, cl, starts, lens, t);
        lemma_rev_rev_start(starts[t], lens[t]);
        assert(reverse32(cw[t]) == starts[t]);
        assert(lowest_free(starts.subrange(0, t), lens.subrange(0, t), starts[t], lens[t]));
        assert(code_free_after(cw, cl, t, reverse32(cw[t]) as int, cl[t] as int));
        assert forall|x: int| 0 <= x < reverse32(cw[t]) implies !#[trigger] code_free_after(cw, cl, t, x, cl[t] as int) by {
            assert(!code_free(starts.subrange(0, t), lens.subrange(0, t), x, lens[t]));
        }
    }
}

fn shl1(e: u32) -> (r: u32)
    requires
        e < 32,
    ensures
        r == pow2(e as nat),
{
    proof {
        vstd::bits::lemma_u32_pow2_no_overflow(e as nat);
        vstd::bits::lemma_u32_shl_is_mul(1, e);
    }
    1u32 << e
}

/// Whether an entry with code length `len` goes into the sorted table
/// searched when the fast table misses.
pub fn include_in_sort(c: &Codebook, len: u8) -> (r: bool)
    requires
        c.sparse ==> len != NO_CODE,
    ensures
        r == (c.sparse || (len != NO_CODE && len > STB_FAST_HUFFMAN_LENGTH)),
{
    if c.sparse {
        return true;
    }
    if len == NO_CODE {
        return false;
    }
    if len > STB_FAST_HUFFMAN_LENGTH as u8 {
        return true;
    }
    false
}

/// Records the code of `symbol`: at the symbol for a dense codebook, and at
/// position `count` with its length and symbol for a sparse one.
pub fn add_entry(c: &mut Codebook, huff_code: u32, symbol: usize, count: i32, len: u8, values: &mut Vec<u32>)
    requires
        !old(c).sparse ==> symbol < old(c).codewords@.len(),
        old(c).sparse ==> 0 <= count < old(c).codewords@.len(),
        old(c).sparse ==> count < old(c).codeword_lengths@.len(),
        old(c).sparse ==> count < old(values)@.len(),
    ensures
        *final(c) == (Codebook { codewords: final(c).codewords, codeword_lengths: final(c).codeword_lengths, ..*old(c) }),
        !old(c).sparse ==> final(c).codewords@ == old(c).codewords@.update(symbol as int, huff_code),
        !old(c).sparse ==> final(c).codeword_lengths@ == old(c).codeword_lengths@,
        !old(c).sparse ==> final(values)@ == old(values)@,
        old(c).sparse ==> final(c).codewords@ == old(c).codewords@.update(count as int, huff_code),
        old(c).sparse ==> final(c).codeword_lengths@ == old(c).codeword_lengths@.update(count as int, len),
        old(c).sparse ==> final(values)@ == old(values)@.update(count as int, symbol as u32),
{
    if !c.sparse {
        c.codewords.set(symbol, huff_code);
    } else {
        let count = count as usize;
        c.codewords.set(count, huff_code);
        c.codeword_lengths.set(count, len);
        values.set(count, symbol as u32);
    }
}

/// The state of the code assignment after the first `m` codes: codes are
/// valid and pairwise prefix-free, free subtrees are valid, prefix-free with
/// each other and with every code.
spec fn assign_inv(starts: Seq<int>, lens: Seq<int>, avail: Seq<u32>) -> bool {
    &&& starts.len() == lens.len()
    &&& avail.len() == 32
    &&& avail[0] == 0
    &&& forall|t: int| 0 <= t < starts.len() ==> code_ok(#[trigger] starts[t], lens[t])
    &&& forall|t1: int, t2: int| 0 <= t1 < starts.len() && 0 <= t2 < starts.len() && t1 != t2
        ==> codes_disjoint(#[trigger] starts[t1], lens[t1], #[trigger] starts[t2], lens[t2])
    &&& forall|z: int| 1 <= z < 32 && #[trigger] avail[z] != 0 ==> code_ok(avail[z] as int, z)
    &&& forall|z: int, t: int| 1 <= z < 32 && #[trigger] avail[z] != 0 && 0 <= t < starts.len()
        ==> codes_disjoint(avail[z] as int, z, #[trigger] starts[t], lens[t])
    &&& forall|z1: int, z2: int| 1 <= z1 < 32 && 1 <= z2 < 32 && z1 != z2 && #[trigger] avail[z1] != 0 && #[trigger] avail[z2] != 0
        ==> codes_disjoint(avail[z1] as int, z1, avail[z2] as int, z2)
}

/// How the codebook records the codes assigned so far.
spec fn assign_link(c: Codebook, values: Seq<u32>, len: Seq<u8>, starts: Seq<int>, syms: Seq<int>, i: int) -> bool {
    &&& starts.len() == syms.len()
    &&& syms.len() == count_used(len, i)
    &&& forall|t: int| 0 <= t < syms.len() ==> 0 <= #[trigger] syms[t] < i && len[syms[t]] != NO_CODE
    &&& forall|s: int| 0 <= s < i && len[s] != NO_CODE ==> #[trigger] syms[count_used(len, s)] == s
    &&& !c.sparse ==> forall|t: int| 0 <= t < syms.len() ==> c.codewords@[#[trigger] syms[t]] == reverse32(starts[t] as u32)
    &&& c.sparse ==> forall|t: int| 0 <= t < syms.len() ==> c.codewords@[t] == reverse32(#[trigger] starts[t] as u32)
    &&& c.sparse ==> forall|t: int| 0 <= t < syms.len() ==> c.codeword_lengths@[t] == len[#[trigger] syms[t]]
    &&& c.sparse ==> forall|t: int| 0 <= t < syms.len() ==> values[t] == #[trigger] syms[t]
}

/// Assigns the Huffman codes of the entries in order, each entry taking
/// the lowest free subtree at its length (as the Vorbis specification
/// requires). A code is stored with its bits reversed, first bit lowest.
/// On success the codes are pairwise prefix-free: read as 32-bit strings
/// with the first bit on top, the strings that begin with one code never
/// begin with another.
pub fn compute_codewords(c: &mut Codebook, len: &[u8], values: &mut Vec<u32>) -> (r: bool)
    requires
        len@.len() < 0x7fff_ffff,
        !old(c).sparse ==> old(c).codewords@.len() == len@.len(),
        old(c).sparse ==> old(c).codewords@.len() >= count_used(len@, len@.len() as int),
        old(c).sparse ==> old(c).codeword_lengths@.len() >= count_used(len@, len@.len() as int),
        old(c).sparse ==> old(values)@.len() >= count_used(len@, len@.len() as int),
    ensures
        *final(c) == (Codebook { codewords: final(c).codewords, codeword_lengths: final(c).codeword_lengths, ..*old(c) }),
        final(c).codewords@.len() == old(c).codewords@.len(),
        final(c).codeword_lengths@.len() == old(c).codeword_lengths@.len(),
        final(values)@.len() == old(values)@.len(),
        !old(c).sparse ==> final(c).codeword_lengths@ == old(c).codeword_lengths@,
        r && !old(c).sparse ==> forall|s: int| 0 <= s < len@.len() && len@[s] != NO_CODE
            ==> code_ok(reverse32(#[trigger] final(c).codewords@[s]) as int, len@[s] as int),
        r && !old(c).sparse ==> forall|s1: int, s2: int| 0 <= s1 < len@.len() && 0 <= s2 < len@.len() && s1 != s2
            && len@[s1] != NO_CODE && len@[s2] != NO_CODE
            ==> codes_disjoint(reverse32(#[trigger] final(c).codewords@[s1]) as int, len@[s1] as int,
                reverse32(#[trigger] final(c).codewords@[s2]) as int, len@[s2] as int),
        r && old(c).sparse ==> forall|t: int| 0 <= t < count_used(len@, len@.len() as int)
            ==> code_ok(reverse32(#[trigger] final(c).codewords@[t]) as int, final(c).codeword_lengths@[t] as int),
        r && old(c).sparse ==> forall|t1: int, t2: int| 0 <= t1 < count_used(len@, len@.len() as int)
            && 0 <= t2 < count_used(len@, len@.len() as int) && t1 != t2
            ==> codes_disjoint(reverse32(#[trigger] final(c).codewords@[t1]) as int, final(c).codeword_lengths@[t1] as int,
                reverse32(#[trigger] final(c).codewords@[t2]) as int, final(c).codeword_lengths@[t2] as int),
        r && old(c).sparse ==> forall|t: int| 0 <= t < count_used(len@, len@.len() as int)
            ==> #[trigger] final(values)@[t] < len@.len() && final(c).codeword_lengths@[t] == len@[final(values)@[t] as int],
        r && old(c).sparse ==> forall|t1: int, t2: int| 0 <= t1 < t2 < count_used(len@, len@.len() as int)
            ==> #[trigger] final(values)@[t1] < #[trigger] final(values)@[t2],
        r && !old(c).sparse ==> forall|s: int| 0 <= s < len@.len() && len@[s] != NO_CODE
            ==> #[trigger] lowest_code(final(c).codewords@, len@, s),
        r && old(c).sparse ==> forall|t: int| 0 <= t < count_used(len@, len@.len() as int)
            ==> #[trigger] lowest_code(final(c).codewords@, final(c).codeword_lengths@, t),
        !r && !old(c).sparse ==> exists|s: int| #[trigger] dense_code_fails_at(final(c).codewords@, len@, s),
        !r && old(c).sparse ==> exists|s: int|
            #[trigger] sparse_code_fails_at(final(c).codewords@, final(c).codeword_lengths@, len@, s),
{
    let n = len.len();
    let ghost c0 = *c;
    assert(c0 == *old(c));
    let mut k: usize = 0;
    while k < n
        invariant
            k <= n,
            n == len@.len(),
            forall|s: int| 0 <= s < k ==> len@[s] == NO_CODE,
        ensures
            k <= n,
            forall|s: int| 0 <= s < k ==> len@[s] == NO_CODE,
            k < n ==> len@[k as int] != NO_CODE,
        decreases n - k,
    {
        if len[k] < NO_CODE {
            break;
        }
        k = k + 1;
    }
    proof {
        assert forall|s: int| 0 <= s <= k implies count_used(len@, s) == 0 by {
            lemma_count_used_zero(len@, s);
        }
    }
    if k == n {
        proof {
            assert forall|s1: int, s2: int| 0 <= s1 < len@.len() && 0 <= s2 < len@.len() && s1 != s2
                && len@[s1] != NO_CODE && len@[s2] != NO_CODE
                implies codes_disjoint(reverse32(c.codewords@[s1]) as int, len@[s1] as int,
                    reverse32(c.codewords@[s2]) as int, len@[s2] as int) by {}
        }
        return true;
    }
    let lk = len[k];
    if lk == 0 || lk >= 32 {
        proof {
            if !c0.sparse {
                assert(dense_code_fails_at(c.codewords@, len@, k as int));
            } else {
                assert(sparse_code_fails_at(c.codewords@, c.codeword_lengths@, len@, k as int));
            }
        }
        return false;
    }
    proof {
        vstd::arithmetic::power2::lemma2_to64();
        lemma_pow2_pos((32 - lk) as nat);
        lemma_width_split(0, lk as int);
        vstd::arithmetic::div_mod::lemma_small_mod(0, code_width(lk as int) as nat);
        lemma_count_used_mono(len@, k as int, k as int + 1);
        lemma_count_used_mono(len@, k as int, len@.len() as int);
    }
    add_entry(c, 0, k, 0, lk, values);
    let mut m: i32 = 1;
    let ghost mut starts: Seq<int> = seq![0int];
    let ghost mut lens: Seq<int> = seq![lk as int];
    let ghost mut syms: Seq<int> = seq![k as int];
    proof {
        assert(reverse32(0u32) == 0) by (bit_vector);
    }

    let mut available: Vec<u32> = Vec::new();
    let mut z0: usize = 0;
    while z0 < 32
        invariant
            z0 <= 32,
            available@.len() == z0,
            forall|z: int| 0 <= z < z0 ==> available@[z] == 0,
        decreases 32 - z0,
    {
        available.push(0);
        z0 = z0 + 1;
    }
    let mut i: u8 = 1;
    while i <= lk
        invariant
            1 <= i <= lk + 1,
            lk < 32,
            available@.len() == 32,
            available@[0] == 0,
            forall|z: int| i <= z < 32 ==> available@[z] == 0,
            forall|z: int| 1 <= z < i ==> #[trigger] available@[z] == code_width(z),
        decreases lk + 1 - i,
    {
        let w = shl1(32 - i as u32);
        available.set(i as usize, w);
        i = i + 1;
    }
    proof {
        assert forall|z: int| 1 <= z < 32 && #[trigger] available@[z] != 0 implies
            code_ok(available@[z] as int, z) && z <= lk && available@[z] == code_width(z) by {
            lemma_width_split(z - 1, z);
            lemma_width_split(0, z - 1);
            lemma_pow2_pos((32 - z) as nat);
            vstd::arithmetic::div_mod::lemma_mod_self_0(code_width(z));
        }
        assert forall|z1: int, z2: int| 1 <= z1 < 32 && 1 <= z2 < 32 && z1 != z2 && #[trigger] available@[z1] != 0
            && #[trigger] available@[z2] != 0 implies codes_disjoint(available@[z1] as int, z1, available@[z2] as int, z2) by {
            if z1 < z2 { lemma_width_split(z1, z2); } else { lemma_width_split(z2, z1); }
        }
        assert forall|z: int, t: int| 1 <= z < 32 && #[trigger] available@[z] != 0 && 0 <= t < starts.len()
            implies codes_disjoint(available@[z] as int, z, #[trigger] starts[t], lens[t]) by {
            lemma_width_split(z, lk as int);
        }
        assert(starts.len() == lens.len());
        assert(available@.len() == 32);
        assert(available@[0] == 0);
        assert(code_ok(starts[0], lens[0]));
        assert(forall|t: int| 0 <= t < starts.len() ==> code_ok(#[trigger] starts[t], lens[t]));
        assert(assign_inv(starts, lens, available@));
        lemma_frontier_init(lk as int, available@);
        assert(lowest_free(starts.subrange(0, 0), lens.subrange(0, 0), starts[0], lens[0]));
        assert forall|s: int| 0 <= s < k + 1 && len@[s] != NO_CODE implies #[trigger] syms[count_used(len@, s)] == s by {
            assert(s == k);
        }
        assert(assign_link(*c, values@, len@, starts, syms, k as int + 1));
    }

    let mut ii: usize = k + 1;
    while ii < n
        invariant
            k < ii <= n,
            c0 == *old(c),
            n == len@.len(),
            n < 0x7fff_ffff,
            m as int == syms.len(),
            m as int == count_used(len@, ii as int),
            *c == (Codebook { codewords: c.codewords, codeword_lengths: c.codeword_lengths, ..c0 }),
            c.codewords@.len() == c0.codewords@.len(),
            c.codeword_lengths@.len() == c0.codeword_lengths@.len(),
            values@.len() == old(values)@.len(),
            !c0.sparse ==> c.codeword_lengths@ == c0.codeword_lengths@,
            !c0.sparse ==> c.codewords@.len() == len@.len(),
            c0.sparse ==> c.codewords@.len() >= count_used(len@, len@.len() as int),
            c0.sparse ==> c.codeword_lengths@.len() >= count_used(len@, len@.len() as int),
            c0.sparse ==> values@.len() >= count_used(len@, len@.len() as int),
            starts.len() == lens.len(),
            forall|t: int| 0 <= t < lens.len() ==> #[trigger] lens[t] == len@[syms[t]],
            assign_inv(starts, lens, available@),
            frontier_inv(starts, lens, available@),
            forall|t: int| 0 <= t < starts.len()
                ==> #[trigger] lowest_free(starts.subrange(0, t), lens.subrange(0, t), starts[t], lens[t]),
            assign_link(*c, values@, len@, starts, syms, ii as int),
            forall|t1: int, t2: int| 0 <= t1 < t2 < syms.len() ==> #[trigger] syms[t1] < #[trigger] syms[t2],
        decreases n - ii,
    {
        let li = len[ii];
        proof { lemma_count_used_mono(len@, ii as int, ii as int + 1); }
        if li == NO_CODE {
            ii = ii + 1;
            continue;
        }
        if li == 0 || li >= 32 {
            proof {
                if !c0.sparse {
                    lemma_dense_lowest_all(c.codewords@, len@, starts, lens, syms, ii as int);
                    assert(dense_code_fails_at(c.codewords@, len@, ii as int));
                } else {
                    lemma_sparse_lowest_all(c.codewords@, c.codeword_lengths@, starts, lens);
                    assert(sparse_code_fails_at(c.codewords@, c.codeword_lengths@, len@, ii as int));
                }
            }
            return false;
        }
        let mut z: u8 = li;
        while z > 0 && available[z as usize] == 0
            invariant
                z <= li,
                li < 32,
                available@.len() == 32,
                forall|y: int| z < y <= li ==> available@[y] == 0,
            decreases z,
        {
            z = z - 1;
        }
        if z == 0 {
            proof {
                lemma_none_free(starts, lens, available@, li as int);
                assert(starts.subrange(0, starts.len() as int) =~= starts);
                assert(lens.subrange(0, lens.len() as int) =~= lens);
                if !c0.sparse {
                    lemma_dense_lowest_all(c.codewords@, len@, starts, lens, syms, ii as int);
                    lemma_dense_free_iff(c.codewords@, len@, starts, lens, syms, ii as int, ii as int);
                    assert(dense_code_fails_at(c.codewords@, len@, ii as int));
                } else {
                    lemma_sparse_lowest_all(c.codewords@, c.codeword_lengths@, starts, lens);
                    lemma_sparse_free_iff(c.codewords@, c.codeword_lengths@, starts, lens, starts.len() as int);
                    assert(sparse_code_fails_at(c.codewords@, c.codeword_lengths@, len@, ii as int));
                }
            }
            return false;
        }
        let res = available[z as usize];
        let ghost av0 = available@;
        let ghost starts0 = starts;
        let ghost lens0 = lens;
        proof {
            lemma_lowest_free(starts, lens, available@, z as int, li as int);
            lemma_width_split(z as int, li as int);
            lemma_aligned_finer(res as int, z as int, li as int);
            lemma_count_used_mono(len@, 0, ii as int);
        }
        available.set(z as usize, 0);
        let br = bit_reverse(res);
        proof {
            lemma_count_used_mono(len@, ii as int, len@.len() as int);
        }
        add_entry(c, br, ii, m, li, values);
        let ghost syms_prev = syms;
        proof {
            let t_new = starts.len();
            starts = starts.push(res as int);
            lens = lens.push(li as int);
            syms = syms.push(ii as int);
            assert(syms.len() == count_used(len@, ii as int + 1));
            assert forall|t1: int, t2: int| 0 <= t1 < starts.len() && 0 <= t2 < starts.len() && t1 != t2
                implies codes_disjoint(#[trigger] starts[t1], lens[t1], #[trigger] starts[t2], lens[t2]) by {
                if t1 == t_new {
                    assert(av0[z as int] != 0);
                    assert(codes_disjoint(av0[z as int] as int, z as int, starts[t2], lens[t2]));
                } else if t2 == t_new {
                    assert(av0[z as int] != 0);
                    assert(codes_disjoint(av0[z as int] as int, z as int, starts[t1], lens[t1]));
                }
            }
        }
        m = m + 1;
        if z != li {
            let mut y: u8 = li;
            while y > z
                invariant
                    z < li < 32,
                    z <= y <= li,
                    z >= 1,
                    res == av0[z as int],
                    res != 0,
                    code_ok(res as int, z as int),
                    available@.len() == 32,
                    available@[0] == 0,
                    available@[z as int] == 0,
                    forall|w: int| 1 <= w < 32 && w != z && !(y < w <= li) ==> #[trigger] available@[w] == av0[w],
                    forall|w: int| y < w <= li ==> #[trigger] available@[w] == res + code_width(w),
                decreases y,
            {
                proof {
                    vstd::arithmetic::power2::lemma2_to64();
                    lemma_width_split(z as int, y as int);
                    lemma_width_split(z as int, (y - 1) as int);
                }
                let w = shl1(32 - y as u32);
                available.set(y as usize, res + w);
                y = y - 1;
            }
        }
        proof {
            let av = available@;
            lemma_frontier_step(starts0, lens0, av0, av, z as int, li as int);
            assert(starts == starts0.push(res as int) && lens == lens0.push(li as int));
            assert forall|t: int| 0 <= t < starts.len()
                implies #[trigger] lowest_free(starts.subrange(0, t), lens.subrange(0, t), starts[t], lens[t]) by {
                assert(starts.subrange(0, t) =~= starts0.subrange(0, t) || t == starts0.len());
                if t < starts0.len() {
                    assert(starts.subrange(0, t) =~= starts0.subrange(0, t));
                    assert(lens.subrange(0, t) =~= lens0.subrange(0, t));
                    assert(lowest_free(starts0.subrange(0, t), lens0.subrange(0, t), starts0[t], lens0[t]));
                } else {
                    assert(starts.subrange(0, t) =~= starts0);
                    assert(lens.subrange(0, t) =~= lens0);
                }
            }
            assert forall|w: int| 1 <= w < 32 && #[trigger] av[w] != 0 implies
                (code_ok(av[w] as int, w) && (av0[w] != 0 && w != z as int && av[w] == av0[w]
                    || z < w <= li && av[w] == res + code_width(w))) by {
                if z < w <= li {
                    lemma_width_split(z as int, w);
                    lemma_width_split(w - 1, w);
                    lemma_aligned_finer(res as int, z as int, w);
                    lemma_pow2_pos((32 - w) as nat);
                    lemma_aligned_add(res as int, code_width(w));
                }
            }
            assert forall|w: int, t: int| 1 <= w < 32 && #[trigger] av[w] != 0 && 0 <= t < starts.len()
                implies codes_disjoint(av[w] as int, w, #[trigger] starts[t], lens[t]) by {
                if z < w <= li {
                    lemma_width_split(z as int, w);
                    lemma_width_split(w, li as int);
                    if t < starts.len() - 1 {
                        assert(av0[z as int] != 0);
                        assert(codes_disjoint(av0[z as int] as int, z as int, starts[t], lens[t]));
                    }
                } else {
                    if t < starts.len() - 1 {
                    } else {
                        assert(av0[z as int] != 0);
                        assert(codes_disjoint(av0[w] as int, w, av0[z as int] as int, z as int));
                    }
                }
            }
            assert forall|w1: int, w2: int| 1 <= w1 < 32 && 1 <= w2 < 32 && w1 != w2 && #[trigger] av[w1] != 0
                && #[trigger] av[w2] != 0 implies codes_disjoint(av[w1] as int, w1, av[w2] as int, w2) by {
                let n1 = z < w1 <= li;
                let n2 = z < w2 <= li;
                if n1 && n2 {
                    if w1 < w2 { lemma_width_split(w1, w2); } else { lemma_width_split(w2, w1); }
                } else if n1 {
                    lemma_width_split(z as int, w1);
                    assert(av0[z as int] != 0);
                    assert(codes_disjoint(av0[w2] as int, w2, av0[z as int] as int, z as int));
                } else if n2 {
                    lemma_width_split(z as int, w2);
                    assert(av0[z as int] != 0);
                    assert(codes_disjoint(av0[w1] as int, w1, av0[z as int] as int, z as int));
                }
            }
            assert(assign_inv(starts, lens, available@));
            assert forall|s: int| 0 <= s < ii + 1 && len@[s] != NO_CODE implies #[trigger] syms[count_used(len@, s)] == s by {
                assert(syms == syms_prev.push(ii as int));
                lemma_count_used_mono(len@, 0, s);
                if s < ii {
                    lemma_count_used_mono(len@, s, ii as int);
                    assert(count_used(len@, s) < syms_prev.len());
                    assert(syms_prev[count_used(len@, s)] == s);
                    assert(syms_prev.push(ii as int)[count_used(len@, s)] == syms_prev[count_used(len@, s)]);
                } else {
                    assert(s == ii);
                    assert(count_used(len@, ii as int) == syms_prev.len());
                    assert(syms[syms_prev.len() as int] == ii);
                }
            }
            assert(assign_link(*c, values@, len@, starts, syms, ii as int + 1));
        }
        ii = ii + 1;
    }
    proof {
        if !c0.sparse {
            lemma_dense_lowest_all(c.codewords@, len@, starts, lens, syms, n as int);
        } else {
            lemma_sparse_lowest_all(c.codewords@, c.codeword_lengths@, starts, lens);
        }
        assert forall|s: int| 0 <= s < len@.len() && len@[s] != NO_CODE implies
            0 <= count_used(len@, s) < syms.len() && #[trigger] syms[count_used(len@, s)] == s by {
            lemma_count_used_mono(len@, s, len@.len() as int);
            lemma_count_used_mono(len@, 0, s);
        }
        vstd::arithmetic::power2::lemma2_to64();
        assert forall|t: int| 0 <= t < starts.len() implies reverse32(reverse32(#[trigger] starts[t] as u32)) == starts[t] by {
            assert(code_ok(starts[t], lens[t]));
            lemma_pow2_pos((32 - lens[t]) as nat);
            lemma_bit_reverse_involution(starts[t] as u32);
        }
        if !c0.sparse {
            assert forall|s: int| 0 <= s < len@.len() && len@[s] != NO_CODE
                implies code_ok(reverse32(#[trigger] c.codewords@[s]) as int, len@[s] as int) by {
                lemma_count_used_mono(len@, s, len@.len() as int);
                lemma_count_used_mono(len@, 0, s);
                let t = count_used(len@, s);
                assert(syms[count_used(len@, s)] == s);
                assert(0 <= t < syms.len() && syms[t] == s);
                lemma_rev_start(starts[t], lens[t]);
            }
            assert forall|s1: int, s2: int| 0 <= s1 < len@.len() && 0 <= s2 < len@.len() && s1 != s2
                && len@[s1] != NO_CODE && len@[s2] != NO_CODE
                implies codes_disjoint(reverse32(#[trigger] c.codewords@[s1]) as int, len@[s1] as int,
                    reverse32(#[trigger] c.codewords@[s2]) as int, len@[s2] as int) by {
                let t1 = count_used(len@, s1);
                let t2 = count_used(len@, s2);
                lemma_count_used_mono(len@, s1, len@.len() as int);
                lemma_count_used_mono(len@, 0, s1);
                lemma_count_used_mono(len@, s2, len@.len() as int);
                lemma_count_used_mono(len@, 0, s2);
                assert(syms[count_used(len@, s1)] == s1);
                assert(syms[count_used(len@, s2)] == s2);
                assert(0 <= t1 < syms.len() && syms[t1] == s1);
                assert(0 <= t2 < syms.len() && syms[t2] == s2);
                lemma_rev_start(starts[t1], lens[t1]);
                lemma_rev_start(starts[t2], lens[t2]);
            }
        } else {
            assert forall|t: int| 0 <= t < count_used(len@, len@.len() as int)
                implies code_ok(reverse32(#[trigger] c.codewords@[t]) as int, c.codeword_lengths@[t] as int) by {
                lemma_rev_start(starts[t], lens[t]);
            }
            assert forall|t: int| 0 <= t < count_used(len@, len@.len() as int)
                implies #[trigger] values@[t] < len@.len() && c.codeword_lengths@[t] == len@[values@[t] as int] by {
                assert(values@[t] == syms[t]);
            }
            assert forall|t1: int, t2: int| 0 <= t1 < t2 < count_used(len@, len@.len() as int)
                implies #[trigger] values@[t1] < #[trigger] values@[t2] by {
                assert(values@[t1] == syms[t1]);
                assert(values@[t2] == syms[t2]);
            }
            assert forall|t1: int, t2: int| 0 <= t1 < count_used(len@, len@.len() as int)
                && 0 <= t2 < count_used(len@, len@.len() as int) && t1 != t2
                implies codes_disjoint(reverse32(#[trigger] c.codewords@[t1]) as int, c.codeword_lengths@[t1] as int,
                    reverse32(#[trigger] c.codewords@[t2]) as int, c.codeword_lengths@[t2] as int) by {
                lemma_rev_start(starts[t1], lens[t1]);
                lemma_rev_start(starts[t2], lens[t2]);
            }
        }
    }
    true
}

proof fn lemma_rev_start(s: int, l: int)
    requires
        code_ok(s, l),
    ensures
        reverse32(reverse32(s as u32)) as int == s,
{
    vstd::arithmetic::power2::lemma2_to64();
    lemma_pow2_pos((32 - l) as nat);
    lemma_bit_reverse_involution(s as u32);
}

proof fn lemma_count_used_zero(len: Seq<u8>, s: int)
    requires
        s >= 0,
        forall|j: int| 0 <= j < s ==> len[j] == NO_CODE,
    ensures
        count_used(len, s) == 0,
    decreases s,
{
    if s > 0 {
        lemma_count_used_zero(len, s - 1);
    }
}

/// How many of the first `i` lengths give an entry a code longer than the
/// fast table covers.
pub open spec fn count_long(len: Seq<u8>, i: int) -> int
    decreases i,
{
    if i <= 0 {
        0
    } else {
        count_long(len, i - 1) + (if len[i - 1] != NO_CODE && len[i - 1] > 10 { 1int } else { 0int })
    }
}

proof fn lemma_count_long_nonneg(len: Seq<u8>, a: int)
    ensures
        0 <= count_long(len, a),
    decreases a,
{
    if a > 0 {
        lemma_count_long_nonneg(len, a - 1);
    }
}

/// When no entry has a long code, no entry has one.
pub proof fn lemma_count_long_zero(len: Seq<u8>, a: int)
    requires
        0 <= a <= len.len(),
        count_long(len, a) == 0,
    ensures
        forall|i: int| 0 <= i < a ==> !(#[trigger] len[i] != NO_CODE && len[i] > 10),
    decreases a,
{
    if a > 0 {
        lemma_count_long_nonneg(len, a - 1);
        lemma_count_long_zero(len, a - 1);
    }
}

/// The last position of `sc[0..ss]` holding a value not above `code`
/// (position 0 when there is none), found by binary search.
pub fn sorted_search(sc: &Vec<u32>, ss: i32, code: u32) -> (x: i32)
    requires
        0 <= ss < sc@.len(),
        forall|a: int, b: int| 0 <= a <= b < ss ==> sc@[a] <= sc@[b],
    ensures
        0 <= x,
        ss == 0 ==> x == 0,
        ss > 0 ==> x < ss,
        x == 0 || sc@[x as int] <= code,
        forall|y: int| x < y < ss ==> sc@[y] > code,
        forall|t: int| 0 <= t < ss && sc@[t] == code ==> sc@[x as int] == code,
{
    let mut x: i32 = 0;
    let mut m: i32 = ss;
    while m > 1
        invariant
            0 <= x,
            0 <= m,
            x + m <= ss,
            ss > 0 ==> m >= 1,
            0 <= ss < sc@.len(),
            forall|a: int, b: int| 0 <= a <= b < ss ==> sc@[a] <= sc@[b],
            x == 0 || sc@[x as int] <= code,
            forall|y: int| x + m <= y < ss ==> sc@[y] > code,
        decreases m,
    {
        assert(m >> 1 == m / 2) by (bit_vector);
        let mid = x + (m >> 1);
        if sc[mid as usize] <= code {
            x = mid;
            m = m - (m >> 1);
        } else {
            m = m >> 1;
        }
    }
    proof {
        assert forall|t: int| 0 <= t < ss && sc@[t] == code implies sc@[x as int] == code by {
            if t > x {
                assert(sc@[t] > code);
            } else if t < x {
                assert(sc@[t] <= sc@[x as int]);
            }
        }
    }
    x
}

/// Sorts the keys in increasing order (the standard library's unstable sort).
#[verifier::external_body]
pub(crate) fn sort_keys(v: &mut Vec<u32>)
    ensures
        final(v)@.to_multiset() == old(v)@.to_multiset(),
        forall|i: int, j: int| 0 <= i <= j < final(v)@.len() ==> final(v)@[i] <= final(v)@[j],
{
    v.sort_unstable();
}

/// `code` is among the first `ss` values of `sc`.
pub open spec fn in_table(sc: Seq<u32>, ss: int, code: u32) -> bool {
    exists|x: int| 0 <= x < ss && sc[x] == code
}

/// The `i`-th sorted entry of `c` has a position in the sorted table that
/// holds its reversed code, its symbol and (sparse) its length.
pub open spec fn placed(sc: Seq<u32>, sv: Seq<i32>, cl: Seq<u8>, c: Codebook, lengths: Seq<u8>, values: Seq<u32>, i: int) -> bool {
    exists|x: int| 0 <= x < c.sorted_entries
        && sc[x] == reverse32(c.codewords@[i])
        && sv[x] == sorted_symbol(c, values, i)
        && (c.sparse ==> cl[x] == lengths[values[i] as int])
}

/// The symbol of the `i`-th entry a codebook sorts: the entry itself for a
/// dense codebook, the recorded symbol for a sparse one.
pub open spec fn sorted_symbol(c: Codebook, values: Seq<u32>, i: int) -> int {
    if c.sparse { values[i] as int } else { i }
}

/// Whether the `i`-th entry goes into the sorted table.
pub open spec fn entry_sorted(c: Codebook, lengths: Seq<u8>, values: Seq<u32>, i: int) -> bool {
    if c.sparse { true } else { lengths[i] != NO_CODE && lengths[i] > 10 }
}

/// `v` is the reversed code of one of the first `n` entries a codebook
/// sorts.
pub open spec fn sorted_key(c: Codebook, lengths: Seq<u8>, values: Seq<u32>, n: int, v: u32) -> bool {
    exists|j: int| 0 <= j < n && entry_sorted(c, lengths, values, j) && v == reverse32(c.codewords@[j])
}

proof fn lemma_sorted_key(c: Codebook, lengths: Seq<u8>, values: Seq<u32>, n: int, j: int)
    requires
        0 <= j < n,
        entry_sorted(c, lengths, values, j),
    ensures
        sorted_key(c, lengths, values, n, reverse32(c.codewords@[j])),
{
}

proof fn lemma_sorted_key_grow(c: Codebook, lengths: Seq<u8>, values: Seq<u32>, n: int, m: int, v: u32)
    requires
        sorted_key(c, lengths, values, n, v),
        n <= m,
    ensures
        sorted_key(c, lengths, values, m, v),
{
    let j = choose|j: int| 0 <= j < n && entry_sorted(c, lengths, values, j) && v == reverse32(c.codewords@[j]);
    lemma_sorted_key(c, lengths, values, m, j);
}

/// How many entries a codebook considers for its sorted table: all its
/// entries when dense, its used entries when sparse.
pub open spec fn sort_count(c: Codebook) -> int {
    if c.sparse { c.sorted_entries as int } else { c.entries as int }
}

/// Position `y` of the sorted table holds the reversed code, the symbol
/// and (sparse) the length of one of the first `n` entries the codebook
/// sorts.
pub open spec fn sorted_entry(c: Codebook, lengths: Seq<u8>, values: Seq<u32>, n: int,
    sc: Seq<u32>, sv: Seq<i32>, cl: Seq<u8>, y: int) -> bool {
    exists|j: int| 0 <= j < n && entry_sorted(c, lengths, values, j) && sc[y] == reverse32(c.codewords@[j])
        && sv[y] == sorted_symbol(c, values, j) && (c.sparse ==> cl[y] == lengths[values[j] as int])
}

proof fn lemma_sorted_entry(c: Codebook, lengths: Seq<u8>, values: Seq<u32>, n: int,
    sc: Seq<u32>, sv: Seq<i32>, cl: Seq<u8>, y: int, j: int)
    requires
        0 <= j < n,
        entry_sorted(c, lengths, values, j),
        sc[y] == reverse32(c.codewords@[j]),
        sv[y] == sorted_symbol(c, values, j),
        c.sparse ==> cl[y] == lengths[values[j] as int],
    ensures
        sorted_entry(c, lengths, values, n, sc, sv, cl, y),
{
}

/// Builds the table searched when the fast table misses: the reversed
/// codes of the long entries (all entries of a sparse codebook) in
/// increasing order, closed by `0xffffffff`, and for each of them its
/// symbol (and for a sparse codebook its length).
pub fn compute_sorted_huffman(c: &mut Codebook, lengths: &[u8], values: &[u32])
    requires
        0 <= old(c).entries,
        0 <= old(c).sorted_entries,
        lengths@.len() == old(c).entries,
        old(c).sorted_values@.len() == old(c).sorted_entries,
        !old(c).sparse ==> old(c).codewords@.len() == old(c).entries,
        !old(c).sparse ==> old(c).sorted_entries == count_long(lengths@, lengths@.len() as int),
        old(c).sparse ==> old(c).codewords@.len() >= old(c).sorted_entries,
        old(c).sparse ==> old(c).codeword_lengths@.len() == old(c).sorted_entries,
        old(c).sparse ==> values@.len() >= old(c).sorted_entries,
        old(c).sparse ==> forall|i: int| 0 <= i < old(c).sorted_entries ==> #[trigger] values@[i] < lengths@.len() && lengths@[values@[i] as int] != NO_CODE,
        forall|i: int, j: int| 0 <= i < j < (if old(c).sparse { old(c).sorted_entries as int } else { old(c).entries as int })
            && entry_sorted(*old(c), lengths@, values@, i) && entry_sorted(*old(c), lengths@, values@, j)
            ==> #[trigger] old(c).codewords@[i] != #[trigger] old(c).codewords@[j],
    ensures
        final(c).entries == old(c).entries,
        final(c).sorted_entries == old(c).sorted_entries,
        final(c).sparse == old(c).sparse,
        final(c).codewords == old(c).codewords,
        final(c).sorted_values@.len() == old(c).sorted_entries,
        final(c).codeword_lengths@.len() == old(c).codeword_lengths@.len(),
        !old(c).sparse ==> final(c).codeword_lengths == old(c).codeword_lengths,
        final(c).sorted_codewords@.len() == old(c).sorted_entries + 1,
        final(c).sorted_codewords@[old(c).sorted_entries as int] == 0xffff_ffffu32,
        forall|i: int, j: int| 0 <= i <= j < old(c).sorted_entries ==> final(c).sorted_codewords@[i] <= final(c).sorted_codewords@[j],
        forall|i: int| 0 <= i < (if old(c).sparse { old(c).sorted_entries as int } else { old(c).entries as int })
            && #[trigger] entry_sorted(*old(c), lengths@, values@, i)
            ==> placed(final(c).sorted_codewords@, final(c).sorted_values@, final(c).codeword_lengths@, *old(c), lengths@, values@, i),
        forall|x: int| 0 <= x < old(c).sorted_entries ==> #[trigger] final(c).sorted_values@[x] == old(c).sorted_values@[x]
            || exists|i: int| 0 <= i < (if old(c).sparse { old(c).sorted_entries as int } else { old(c).entries as int })
                && entry_sorted(*old(c), lengths@, values@, i) && final(c).sorted_values@[x] == sorted_symbol(*old(c), values@, i),
        old(c).sparse ==> forall|x: int| 0 <= x < old(c).sorted_entries ==> #[trigger] final(c).codeword_lengths@[x] == old(c).codeword_lengths@[x]
            || exists|i: int| 0 <= i < old(c).sorted_entries && final(c).codeword_lengths@[x] == lengths@[values@[i] as int],
        *final(c) == (Codebook { sorted_codewords: final(c).sorted_codewords, sorted_values: final(c).sorted_values,
            codeword_lengths: final(c).codeword_lengths, ..*old(c) }),
        forall|a: int, b: int| 0 <= a < b < old(c).sorted_entries
            ==> #[trigger] final(c).sorted_codewords@[a] < #[trigger] final(c).sorted_codewords@[b],
        forall|y: int| 0 <= y < old(c).sorted_entries ==> #[trigger] sorted_entry(*old(c), lengths@, values@,
            sort_count(*old(c)), final(c).sorted_codewords@, final(c).sorted_values@, final(c).codeword_lengths@, y),
{
    let ghost c0 = *c;
    let ss = c.sorted_entries;
    let n: i32 = if c.sparse { c.sorted_entries } else { c.entries };
    let mut keys: Vec<u32> = Vec::new();
    let mut i: i32 = 0;
    while i < n
        invariant
            0 <= i <= n,
            c0 == *old(c),
            *c == c0,
            n == (if c0.sparse { c0.sorted_entries as int } else { c0.entries as int }),
            lengths@.len() == c0.entries,
            !c0.sparse ==> c0.codewords@.len() == c0.entries,
            c0.sparse ==> c0.codewords@.len() >= c0.sorted_entries,
            c0.sparse ==> values@.len() >= c0.sorted_entries,
            c0.sparse ==> forall|j: int| 0 <= j < c0.sorted_entries ==> #[trigger] values@[j] < lengths@.len() && lengths@[values@[j] as int] != NO_CODE,
            !c0.sparse ==> keys@.len() == count_long(lengths@, i as int),
            c0.sparse ==> keys@.len() == i,
            forall|j: int| 0 <= j < i && entry_sorted(c0, lengths@, values@, j) ==> keys@.contains(reverse32(#[trigger] c0.codewords@[j])),
            forall|k: int| 0 <= k < keys@.len() ==> sorted_key(c0, lengths@, values@, i as int, #[trigger] keys@[k]),
            keys@.no_duplicates(),
            forall|a: int, b: int| 0 <= a < b < n && entry_sorted(c0, lengths@, values@, a) && entry_sorted(c0, lengths@, values@, b)
                ==> #[trigger] c0.codewords@[a] != #[trigger] c0.codewords@[b],
        decreases n - i,
    {
        let huff_len = if c.sparse { lengths[values[i as usize] as usize] } else { lengths[i as usize] };
        let ghost keys_prev = keys@;
        if c.sparse || (huff_len != NO_CODE && huff_len > STB_FAST_HUFFMAN_LENGTH as u8) {
            let code = bit_reverse(c.codewords[i as usize]);
            proof {
                assert forall|k: int| 0 <= k < keys_prev.len() implies keys_prev[k] != code by {
                    assert(sorted_key(c0, lengths@, values@, i as int, keys_prev[k]));
                    let j = choose|j: int| 0 <= j < i && entry_sorted(c0, lengths@, values@, j)
                        && keys_prev[k] == reverse32(c0.codewords@[j]);
                    assert(c0.codewords@[j] != c0.codewords@[i as int]);
                    crate::bits::lemma_bit_reverse_involution(c0.codewords@[j]);
                    crate::bits::lemma_bit_reverse_involution(c0.codewords@[i as int]);
                }
            }
            keys.push(code);
            proof {
                assert(keys@[keys@.len() - 1] == code);
            }
        }
        proof {
            assert forall|k: int| 0 <= k < keys@.len() implies sorted_key(c0, lengths@, values@, i + 1, #[trigger] keys@[k]) by {
                if k < keys_prev.len() {
                    assert(keys@[k] == keys_prev[k]);
                    lemma_sorted_key_grow(c0, lengths@, values@, i as int, i + 1, keys_prev[k]);
                } else {
                    lemma_sorted_key(c0, lengths@, values@, i + 1, i as int);
                }
            }
            assert forall|j: int| 0 <= j < i + 1 && entry_sorted(c0, lengths@, values@, j)
                implies keys@.contains(reverse32(#[trigger] c0.codewords@[j])) by {
                if j < i {
                    assert(keys_prev.contains(reverse32(c0.codewords@[j])));
                    let w = choose|w: int| 0 <= w < keys_prev.len() && keys_prev[w] == reverse32(c0.codewords@[j]);
                    assert(keys@[w] == reverse32(c0.codewords@[j]));
                } else {
                    assert(keys@[keys@.len() - 1] == reverse32(c0.codewords@[j]));
                }
            }
        }
        i = i + 1;
    }
    proof {
        if !c0.sparse {
            assert(n == lengths@.len());
        }
        lemma_count_long_nonneg(lengths@, n as int);
    }
    let ghost unsorted = keys@;
    sort_keys(&mut keys);
    proof {
        broadcast use vstd::seq_lib::group_to_multiset_ensures;
        assert forall|j: int| 0 <= j < n && entry_sorted(c0, lengths@, values@, j)
            implies keys@.contains(reverse32(#[trigger] c0.codewords@[j])) by {
            assert(unsorted.contains(reverse32(c0.codewords@[j])));
            assert(unsorted.to_multiset().count(reverse32(c0.codewords@[j])) > 0);
        }
        assert(keys@.len() == unsorted.len()) by {
            assert(keys@.to_multiset().len() == unsorted.to_multiset().len());
        }
        unsorted.lemma_multiset_has_no_duplicates();
        keys@.lemma_multiset_has_no_duplicates_conv();
        assert forall|k: int| 0 <= k < keys@.len() implies sorted_key(c0, lengths@, values@, n as int, #[trigger] keys@[k]) by {
            assert(keys@.contains(keys@[k]));
            assert(keys@.to_multiset().count(keys@[k]) > 0);
            assert(unsorted.contains(keys@[k]));
            let w = choose|w: int| 0 <= w < unsorted.len() && unsorted[w] == keys@[k];
            assert(sorted_key(c0, lengths@, values@, n as int, unsorted[w]));
        }
    }
    let ghost sorted = keys@;
    keys.push(0xffff_ffff);
    c.sorted_codewords = keys;
    let ghost sc = c.sorted_codewords@;
    proof {
        assert(sorted.len() == ss);
        assert(sorted.no_duplicates());
        assert forall|a: int, b: int| 0 <= a < b < ss implies #[trigger] sc[a] < #[trigger] sc[b] by {
            assert(sc[a] == sorted[a]);
            assert(sc[b] == sorted[b]);
            assert(sorted[a] <= sorted[b]);
            assert(sorted[a] != sorted[b]);
        }
        assert forall|y: int| 0 <= y < ss implies sorted_key(c0, lengths@, values@, n as int, #[trigger] sc[y]) by {
            assert(sc[y] == sorted[y]);
        }
        assert forall|j: int| 0 <= j < n && entry_sorted(c0, lengths@, values@, j)
            implies in_table(sc, ss as int, reverse32(#[trigger] c0.codewords@[j])) by {
            assert(sorted.contains(reverse32(c0.codewords@[j])));
            let x = choose|x: int| 0 <= x < sorted.len() && sorted[x] == reverse32(c0.codewords@[j]);
            assert(sc[x] == reverse32(c0.codewords@[j]));
            assert(0 <= x < ss);
        }
    }

    let mut i: i32 = 0;
    while i < n
        invariant
            0 <= i <= n,
            c0 == *old(c),
            ss == c0.sorted_entries,
            n == (if c0.sparse { c0.sorted_entries as int } else { c0.entries as int }),
            c.sorted_codewords@ == sc,
            sc.len() == ss + 1,
            sc[ss as int] == 0xffff_ffffu32,
            forall|a: int, b: int| 0 <= a <= b < ss ==> sc[a] <= sc[b],
            forall|a: int, b: int| 0 <= a < b < ss ==> #[trigger] sc[a] < #[trigger] sc[b],
            forall|y: int| 0 <= y < ss ==> sorted_key(c0, lengths@, values@, n as int, #[trigger] sc[y]),
            *c == (Codebook { sorted_codewords: c.sorted_codewords, sorted_values: c.sorted_values,
                codeword_lengths: c.codeword_lengths, ..c0 }),
            c.sorted_values@.len() == ss,
            c.codeword_lengths@.len() == c0.codeword_lengths@.len(),
            !c0.sparse ==> c.codeword_lengths == c0.codeword_lengths,
            lengths@.len() == c0.entries,
            !c0.sparse ==> c0.codewords@.len() == c0.entries,
            c0.sparse ==> c0.codewords@.len() >= c0.sorted_entries,
            c0.sparse ==> c0.codeword_lengths@.len() == c0.sorted_entries,
            c0.sparse ==> values@.len() >= c0.sorted_entries,
            c0.sparse ==> forall|j: int| 0 <= j < c0.sorted_entries ==> #[trigger] values@[j] < lengths@.len() && lengths@[values@[j] as int] != NO_CODE,
            forall|a: int, b: int| 0 <= a < b < n && entry_sorted(c0, lengths@, values@, a) && entry_sorted(c0, lengths@, values@, b)
                ==> #[trigger] c0.codewords@[a] != #[trigger] c0.codewords@[b],
            forall|j: int| 0 <= j < n && entry_sorted(c0, lengths@, values@, j)
                ==> in_table(sc, ss as int, reverse32(#[trigger] c0.codewords@[j])),
            forall|j: int| 0 <= j < i && #[trigger] entry_sorted(c0, lengths@, values@, j)
                ==> placed(sc, c.sorted_values@, c.codeword_lengths@, c0, lengths@, values@, j),
            forall|x: int| 0 <= x < ss ==> #[trigger] c.sorted_values@[x] == c0.sorted_values@[x]
                || exists|j: int| 0 <= j < n && entry_sorted(c0, lengths@, values@, j) && c.sorted_values@[x] == sorted_symbol(c0, values@, j),
            c0.sparse ==> forall|x: int| 0 <= x < ss ==> #[trigger] c.codeword_lengths@[x] == c0.codeword_lengths@[x]
                || exists|j: int| 0 <= j < c0.sorted_entries && c.codeword_lengths@[x] == lengths@[values@[j] as int],
        decreases n - i,
    {
        let huff_len = if c.sparse { lengths[values[i as usize] as usize] } else { lengths[i as usize] };
        if c.sparse || (huff_len != NO_CODE && huff_len > STB_FAST_HUFFMAN_LENGTH as u8) {
            let code = bit_reverse(c.codewords[i as usize]);
            let x = sorted_search(&c.sorted_codewords, ss, code);
            if c.sorted_codewords[x as usize] != code {
                proof {
                    assert(in_table(sc, ss as int, reverse32(c0.codewords@[i as int])));
                    let t = choose|t: int| 0 <= t < ss && sc[t] == code;
                    assert(sc[t] == code);
                }
            }
            let ghost prev_sv = c.sorted_values@;
            let ghost prev_cl = c.codeword_lengths@;
            if c.sparse {
                c.sorted_values.set(x as usize, values[i as usize] as i32);
                c.codeword_lengths.set(x as usize, huff_len);
            } else {
                c.sorted_values.set(x as usize, i);
            }
            proof {
                assert(sc[x as int] == code);
                assert forall|j: int| 0 <= j < i + 1 && #[trigger] entry_sorted(c0, lengths@, values@, j)
                    implies placed(sc, c.sorted_values@, c.codeword_lengths@, c0, lengths@, values@, j) by {
                    if j < i {
                        assert(placed(sc, prev_sv, prev_cl, c0, lengths@, values@, j));
                        let y = choose|y: int| 0 <= y < ss
                            && sc[y] == reverse32(c0.codewords@[j])
                            && prev_sv[y] == sorted_symbol(c0, values@, j)
                            && (c0.sparse ==> prev_cl[y] == lengths@[values@[j] as int]);
                        assert(c0.codewords@[j] != c0.codewords@[i as int]);
                        assert(reverse32(c0.codewords@[j]) != reverse32(c0.codewords@[i as int])) by {
                            crate::bits::lemma_bit_reverse_involution(c0.codewords@[j]);
                            crate::bits::lemma_bit_reverse_involution(c0.codewords@[i as int]);
                        }
                        assert(y != x);
                        assert(c.sorted_values@[y] == prev_sv[y]);
                    } else {
                        assert(sc[x as int] == reverse32(c0.codewords@[j]));
                    }
                }
                assert forall|y: int| 0 <= y < ss implies #[trigger] c.sorted_values@[y] == c0.sorted_values@[y]
                    || exists|j: int| 0 <= j < n && entry_sorted(c0, lengths@, values@, j) && c.sorted_values@[y] == sorted_symbol(c0, values@, j) by {
                    if y == x {
                        assert(entry_sorted(c0, lengths@, values@, i as int) && c.sorted_values@[y] == sorted_symbol(c0, values@, i as int));
                    } else {
                        assert(c.sorted_values@[y] == prev_sv[y]);
                    }
                }
                if c0.sparse {
                    assert forall|y: int| 0 <= y < ss implies #[trigger] c.codeword_lengths@[y] == c0.codeword_lengths@[y]
                        || exists|j: int| 0 <= j < c0.sorted_entries && c.codeword_lengths@[y] == lengths@[values@[j] as int] by {
                        if y == x {
                            assert(c.codeword_lengths@[y] == lengths@[values@[i as int] as int]);
                        } else {
                            assert(c.codeword_lengths@[y] == prev_cl[y]);
                        }
                    }
                }
            }
        }
        i = i + 1;
    }
    proof {
        assert forall|y: int| 0 <= y < ss implies #[trigger] sorted_entry(c0, lengths@, values@, n as int,
            sc, c.sorted_values@, c.codeword_lengths@, y) by {
            assert(sorted_key(c0, lengths@, values@, n as int, sc[y]));
            let j = choose|j: int| 0 <= j < n && entry_sorted(c0, lengths@, values@, j)
                && sc[y] == reverse32(c0.codewords@[j]);
            assert(placed(sc, c.sorted_values@, c.codeword_lengths@, c0, lengths@, values@, j));
            let x = choose|x: int| 0 <= x < c0.sorted_entries
                && sc[x] == reverse32(c0.codewords@[j])
                && c.sorted_values@[x] == sorted_symbol(c0, values@, j)
                && (c0.sparse ==> c.codeword_lengths@[x] == lengths@[values@[j] as int]);
            if x < y {
                assert(sc[x] < sc[y]);
            } else if y < x {
                assert(sc[y] < sc[x]);
            }
            lemma_sorted_entry(c0, lengths@, values@, n as int, sc, c.sorted_values@, c.codeword_lengths@, y, j);
        }
    }
}

/// The code, first bit lowest, of the `i`-th entry a decode can give: the
/// entry itself for a dense codebook, position `i` of the sorted table for
/// a sparse one.
pub open spec fn entry_code(c: Codebook, i: int) -> u32 {
    if c.sparse { reverse32(c.sorted_codewords@[i]) } else { c.codewords@[i] }
}

/// Entry `i` has a short code that begins the bits `t` (first bit lowest):
/// `t` agrees with the code in the code's low bits.
pub open spec fn fast_match(c: Codebook, i: int, t: int) -> bool {
    &&& c.codeword_lengths@[i] <= 10
    &&& entry_code(c, i) <= t
    &&& (t - entry_code(c, i)) % (pow2(c.codeword_lengths@[i] as nat) as int) == 0
}

/// How many entries the fast table may point to.
pub open spec fn fast_limit(c: Codebook) -> int {
    let n = if c.sparse { c.sorted_entries as int } else { c.entries as int };
    if n < 32767 { n } else { 32767 }
}

/// Entry `t` of the fast table is right: the last entry whose short code
/// begins the bits `t`, or -1 when no short code does.
pub open spec fn fast_entry_ok(c: Codebook, table: Seq<i16>, t: int, lim: int) -> bool {
    ||| (table[t] == -1 && forall|i: int| 0 <= i < lim ==> !fast_match(c, i, t))
    ||| (0 <= table[t] < lim && fast_match(c, table[t] as int, t)
        && forall|i: int| table[t] < i < lim ==> !fast_match(c, i, t))
}

proof fn lemma_step_hit(code: int, w: int, z: int, t: int)
    requires
        w > 0,
        code <= z <= t < z + w,
        (z - code) % w == 0,
        (t - code) % w == 0,
    ensures
        t == z,
{
    vstd::arithmetic::div_mod::lemma_fundamental_div_mod(t - code, w);
    vstd::arithmetic::div_mod::lemma_fundamental_div_mod(z - code, w);
    let a = (t - code) / w;
    let b = (z - code) / w;
    assert(t - z == (a - b) * w) by (nonlinear_arith)
        requires t - code == w * a, z - code == w * b;
    assert(a - b == 0) by (nonlinear_arith)
        requires t - z == (a - b) * w, 0 <= t - z < w, w > 0;
}

proof fn lemma_step_mod(code: int, w: int, z: int)
    requires
        w > 0,
        (z - code) % w == 0,
    ensures
        (z + w - code) % w == 0,
{
    vstd::arithmetic::div_mod::lemma_mod_adds(z - code, w, w);
    vstd::arithmetic::div_mod::lemma_mod_self_0(w);
}

/// Fills the fast table: for each `t < 1024`, the last entry whose code has
/// at most 10 bits and begins the bits `t` (first bit lowest), or -1.
pub fn compute_accelerated_huffman(c: &mut Codebook)
    requires
        old(c).entries >= 0,
        old(c).sorted_entries >= 0,
        old(c).codeword_lengths@.len() >= fast_limit(*old(c)),
        !old(c).sparse ==> old(c).codewords@.len() >= fast_limit(*old(c)),
        old(c).sparse ==> old(c).sorted_codewords@.len() >= fast_limit(*old(c)),
    ensures
        *final(c) == (Codebook { fast_huffman: final(c).fast_huffman, ..*old(c) }),
        final(c).fast_huffman@.len() == 1024,
        forall|t: int| 0 <= t < 1024 ==> fast_entry_ok(*old(c), final(c).fast_huffman@, t, fast_limit(*old(c))),
{
    let ghost c0 = *c;
    let mut table: Vec<i16> = Vec::new();
    let mut k: usize = 0;
    while k < 1024
        invariant
            k <= 1024,
            table@.len() == k,
            forall|t: int| 0 <= t < k ==> table@[t] == -1,
        decreases 1024 - k,
    {
        table.push(-1);
        k = k + 1;
    }
    let n = if c.sparse { c.sorted_entries } else { c.entries };
    let lim: i32 = if n < 32767 { n } else { 32767 };
    let mut i: i32 = 0;
    while i < lim
        invariant
            0 <= i <= lim,
            lim == fast_limit(c0),
            *c == c0,
            c0.codeword_lengths@.len() >= lim,
            !c0.sparse ==> c0.codewords@.len() >= lim,
            c0.sparse ==> c0.sorted_codewords@.len() >= lim,
            table@.len() == 1024,
            forall|t: int| 0 <= t < 1024 ==> fast_entry_ok(c0, table@, t, i as int),
        decreases lim - i,
    {
        let l = c.codeword_lengths[i as usize];
        if l <= 10 {
            let code: u32 = if c.sparse { bit_reverse(c.sorted_codewords[i as usize]) } else { c.codewords[i as usize] };
            assert(code as int == entry_code(c0, i as int));
            let w = shl1(l as u32);
            proof { vstd::arithmetic::power2::lemma2_to64(); vstd::arithmetic::power2::lemma_pow2_strictly_increases(l as nat, 11); }
            let ghost before = table@;
            let mut z: u32 = code;
            proof { vstd::arithmetic::div_mod::lemma_mod_self_0(w as int); }
            assert((z - code) % (w as int) == 0) by {
                assert(z - code == 0);
                vstd::arithmetic::div_mod::lemma_small_mod(0, w as nat);
            }
            while z < 1024
                invariant
                    code <= z,
                    code as int == entry_code(c0, i as int),
                    w as int == pow2(l as nat),
                    0 < w <= 1024,
                    l == c0.codeword_lengths@[i as int],
                    l <= 10,
                    (z - code) % (w as int) == 0,
                    table@.len() == 1024,
                    before.len() == 1024,
                    forall|t: int| 0 <= t < 1024 ==> #[trigger] table@[t] == (if t < z && fast_match(c0, i as int, t) { i as i16 } else { before[t] }),
                decreases (if z < 1024 { 1024 - z } else { 0 }),
            {
                table.set(z as usize, i as i16);
                proof {
                    assert forall|t: int| 0 <= t < 1024 implies #[trigger] table@[t] == (if t < z + w && fast_match(c0, i as int, t) { i as i16 } else { before[t] }) by {
                        if z <= t < z + w && fast_match(c0, i as int, t) {
                            lemma_step_hit(code as int, w as int, z as int, t);
                        }
                        if t == z {
                            assert(fast_match(c0, i as int, t));
                        }
                    }
                    lemma_step_mod(code as int, w as int, z as int);
                }
                z = z + w;
            }
            proof {
                assert forall|t: int| 0 <= t < 1024 implies #[trigger] fast_entry_ok(c0, table@, t, i + 1) by {
                    if fast_match(c0, i as int, t) {
                        assert(table@[t] == i as i16);
                    } else {
                        assert(table@[t] == before[t]);
                        assert(fast_entry_ok(c0, before, t, i as int));
                    }
                }
            }
        } else {
            proof {
                assert forall|t: int| 0 <= t < 1024 implies #[trigger] fast_entry_ok(c0, table@, t, i + 1) by {
                    assert(fast_entry_ok(c0, table@, t, i as int));
                    assert(!fast_match(c0, i as int, t));
                }
            }
        }
        i = i + 1;
    }
    c.fast_huffman = table;
}

} // verus!
