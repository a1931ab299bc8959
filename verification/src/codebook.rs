use vstd::prelude::*;
use vstd::arithmetic::power2::pow2;
use vstd::math::min;
use crate::bits::{bit_reverse, reverse32};
use crate::huffman::{NO_CODE, STB_FAST_HUFFMAN_LENGTH, sorted_search, fast_entry_ok, fast_limit, fast_match, entry_code,
    lemma_code_block, lemma_same_block};
use crate::ogg::{prep_huffman, progress, page_bits, bits_in_page, lemma_page_bits_nonneg, lemma_pending_prefix, invalid_only_at_end,
    lemma_drop_pending, reading_at, lemma_bits_after};
use crate::types::{Codebook, VorbisError};
use crate::vorbis::{Vorbis, error};

verus! {

/// The tables of a codebook are consistent, so that decoding with it
/// stays within them.
pub open spec fn codebook_ok(c: Codebook) -> bool {
    &&& 0 <= c.entries < 0x100_0000
    &&& 0 <= c.dimensions < 0x1_0000
    &&& 0 <= c.sorted_entries <= c.entries
    &&& c.lookup_type <= 2
    &&& c.fast_huffman@.len() == 1024
    &&& forall|t: int| 0 <= t < 1024 ==> #[trigger] c.fast_huffman@[t] == -1
        || (0 <= c.fast_huffman@[t] < c.codeword_lengths@.len() && c.codeword_lengths@[c.fast_huffman@[t] as int] <= 10)
    &&& (c.sorted_codewords@.len() == 0 || c.sorted_codewords@.len() == c.sorted_entries + 1)
    &&& (c.sorted_codewords@.len() > 0 ==> c.sorted_values@.len() == c.sorted_entries && c.sorted_entries >= 1)
    &&& forall|a: int, b: int| 0 <= a <= b < c.sorted_entries && b < c.sorted_codewords@.len()
        ==> c.sorted_codewords@[a] <= c.sorted_codewords@[b]
    &&& !c.sparse ==> c.codeword_lengths@.len() == c.entries
    &&& !c.sparse ==> (c.codewords@.len() == 0 || c.codewords@.len() == c.entries)
    &&& forall|x: int| 0 <= x < c.sorted_values@.len() ==> 0 <= #[trigger] c.sorted_values@[x] < c.entries
    &&& c.sparse ==> c.codeword_lengths@.len() == c.sorted_entries && c.codewords@.len() == 0
    &&& forall|i: int| 0 <= i < c.codeword_lengths@.len() ==> #[trigger] c.codeword_lengths@[i] == NO_CODE
        || 1 <= c.codeword_lengths@[i] <= 31
}

/// How many values a decode with `c` can give (the range of its results).
pub open spec fn decode_range(c: Codebook) -> int {
    if c.sparse { c.sorted_entries as int } else { c.entries as int }
}

/// The bits `x` (first bit lowest) begin with the code `code` of `len` bits.
pub open spec fn code_begins(x: int, code: int, len: int) -> bool {
    x % (pow2(len as nat) as int) == code
}

/// The bits ahead of `f` begin with the code `code` of `len` bits: the
/// pending bits hold it, or, for a code of at most 25 bits (as many as a
/// refill of the pending bits always reaches), the bits of the packet left
/// in the page begin with it.
pub open spec fn bits_begin_with(f: Vorbis, code: int, len: int) -> bool {
    ||| f.valid_bits >= len && code_begins(f.acc as int, code, len)
    ||| 0 <= f.valid_bits && len <= 25 && len <= bits_in_page(f) && code_begins(page_bits(f), code, len)
}

/// The codes of the entries a decode can give fit their lengths and none
/// begins another: a string of bits begins with the code of at most one
/// of them.
pub open spec fn codes_prefix_free(c: Codebook) -> bool {
    &&& !c.sparse ==> c.codewords@.len() == c.entries
    &&& forall|i: int| 0 <= i < decode_range(c) && c.codeword_lengths@[i] != NO_CODE
        ==> (#[trigger] entry_code(c, i) as int) < pow2(c.codeword_lengths@[i] as nat)
    &&& forall|i: int, j: int| 0 <= i < decode_range(c) && 0 <= j < decode_range(c) && i != j
        && c.codeword_lengths@[i] != NO_CODE && c.codeword_lengths@[j] != NO_CODE
        && c.codeword_lengths@[i] <= c.codeword_lengths@[j]
        ==> !code_begins(#[trigger] entry_code(c, j) as int, #[trigger] entry_code(c, i) as int, c.codeword_lengths@[i] as int)
}

/// Each entry of the fast table is the last entry whose short code begins
/// its index.
pub open spec fn fast_table_ok(c: Codebook) -> bool {
    &&& c.fast_huffman@.len() == 1024
    &&& forall|t: int| 0 <= t < 1024 ==> #[trigger] fast_entry_ok(c, c.fast_huffman@, t, fast_limit(c))
}

/// The sorted table, in strictly increasing order of reversed codes. A
/// dense codebook keeps there its long entries (codes of more than 10
/// bits), each with its entry, and every long entry is there; a sparse
/// codebook keeps all its entries there, each with a code.
pub open spec fn sorted_table_ok(c: Codebook) -> bool {
    &&& c.sorted_values@.len() == c.sorted_entries
    &&& c.sorted_entries > 0 ==> c.sorted_codewords@.len() == c.sorted_entries + 1
    &&& forall|a: int, b: int| 0 <= a < b < c.sorted_entries
        ==> #[trigger] c.sorted_codewords@[a] < #[trigger] c.sorted_codewords@[b]
    &&& c.sparse ==> forall|y: int| 0 <= y < c.sorted_entries ==> #[trigger] c.codeword_lengths@[y] != NO_CODE
    &&& !c.sparse ==> forall|y: int| 0 <= y < c.sorted_entries ==> {
        let e = #[trigger] c.sorted_values@[y] as int;
        &&& 0 <= e < c.entries
        &&& c.codeword_lengths@[e] != NO_CODE
        &&& c.codeword_lengths@[e] > 10
        &&& c.sorted_codewords@[y] == reverse32(c.codewords@[e])
    }
    &&& !c.sparse ==> forall|i: int| 0 <= i < c.entries && c.codeword_lengths@[i] != NO_CODE && c.codeword_lengths@[i] > 10
        ==> #[trigger] long_entry_sorted(c, i)
}

/// Long entry `i` has a position in the sorted table.
pub open spec fn long_entry_sorted(c: Codebook, i: int) -> bool {
    exists|y: int| 0 <= y < c.sorted_entries && c.sorted_values@[y] == i
}

/// The Huffman tables of a codebook do not depend on its lookup table.
pub(crate) proof fn lemma_tables_kept(c0: Codebook, c1: Codebook)
    requires
        c1.codewords == c0.codewords,
        c1.codeword_lengths == c0.codeword_lengths,
        c1.sparse == c0.sparse,
        c1.sorted_codewords == c0.sorted_codewords,
        c1.fast_huffman == c0.fast_huffman,
        c1.entries == c0.entries,
        c1.sorted_entries == c0.sorted_entries,
        c1.sorted_values == c0.sorted_values,
    ensures
        fast_table_ok(c0) ==> fast_table_ok(c1),
        codes_prefix_free(c0) ==> codes_prefix_free(c1),
        sorted_table_ok(c0) ==> sorted_table_ok(c1),
{
    assert(fast_limit(c1) == fast_limit(c0));
    assert forall|i: int| #[trigger] entry_code(c1, i) == entry_code(c0, i) by {}
    assert forall|i: int, t: int| #[trigger] fast_match(c1, i, t) == fast_match(c0, i, t) by {
        assert(entry_code(c1, i) == entry_code(c0, i));
    }
    if fast_table_ok(c0) {
        assert forall|t: int| 0 <= t < 1024 implies #[trigger] fast_entry_ok(c1, c1.fast_huffman@, t, fast_limit(c1)) by {
            assert(fast_entry_ok(c0, c0.fast_huffman@, t, fast_limit(c0)));
        }
    }
    if sorted_table_ok(c0) && !c0.sparse {
        assert forall|i: int| 0 <= i < c1.entries && c1.codeword_lengths@[i] != NO_CODE && c1.codeword_lengths@[i] > 10
            implies #[trigger] long_entry_sorted(c1, i) by {
            assert(long_entry_sorted(c0, i));
        }
    }
}

/// The bits ahead of `f` begin with the code of entry `s` of `c` (of
/// position `s` of the sorted table when `c` is sparse), whose tables are
/// sound; a short code of a dense codebook (at most 10 bits, which only the
/// fast table serves) belongs to an entry below 32767, the most the fast
/// table can name.
pub open spec fn code_pending(f: Vorbis, c: Codebook, s: int) -> bool {
    &&& codes_prefix_free(c)
    &&& fast_table_ok(c)
    &&& sorted_table_ok(c)
    &&& 0 <= s < decode_range(c)
    &&& c.codeword_lengths@[s] != NO_CODE
    &&& !c.sparse && c.codeword_lengths@[s] <= 10 ==> s < 32767
    &&& bits_begin_with(f, entry_code(c, s) as int, c.codeword_lengths@[s] as int)
}

/// What a decode gives for entry `s`: the entry of a dense codebook, the
/// recorded symbol of position `s` of a sparse one.
pub open spec fn decoded_symbol(c: Codebook, s: int) -> int {
    if c.sparse { c.sorted_values@[s] as int } else { s }
}

/// Reading `b` low bits of the low `a` bits is reading `b` low bits.
proof fn lemma_mod_pow2_mod(x: int, a: nat, b: nat)
    requires
        b <= a,
        0 <= x,
    ensures
        (x % (pow2(a) as int)) % (pow2(b) as int) == x % (pow2(b) as int),
{
    vstd::arithmetic::power2::lemma_pow2_adds(b, (a - b) as nat);
    vstd::arithmetic::power2::lemma_pow2_pos(b);
    vstd::arithmetic::power2::lemma_pow2_pos((a - b) as nat);
    vstd::arithmetic::div_mod::lemma_mod_mod(x, pow2(b) as int, pow2((a - b) as nat) as int);
}

/// A short code that begins `t` matches `t` in the fast table's sense.
proof fn lemma_begins_matches(c: Codebook, i: int, t: int)
    requires
        0 <= t,
        c.codeword_lengths@[i] <= 10,
        (entry_code(c, i) as int) < pow2(c.codeword_lengths@[i] as nat),
    ensures
        fast_match(c, i, t) <==> code_begins(t, entry_code(c, i) as int, c.codeword_lengths@[i] as int),
{
    let w = pow2(c.codeword_lengths@[i] as nat) as int;
    let code = entry_code(c, i) as int;
    vstd::arithmetic::power2::lemma_pow2_pos(c.codeword_lengths@[i] as nat);
    if code_begins(t, code, c.codeword_lengths@[i] as int) {
        vstd::arithmetic::div_mod::lemma_fundamental_div_mod(t, w);
        vstd::arithmetic::div_mod::lemma_div_pos_is_pos(t, w);
        vstd::arithmetic::mul::lemma_mul_nonnegative(w, t / w);
        assert(t - code == w * (t / w));
        vstd::arithmetic::div_mod::lemma_mod_multiples_basic(t / w, w);
        vstd::arithmetic::mul::lemma_mul_is_commutative(w, t / w);
    }
    if fast_match(c, i, t) {
        vstd::arithmetic::div_mod::lemma_fundamental_div_mod(t - code, w);
        let q = (t - code) / w;
        assert(t == code + w * q);
        vstd::arithmetic::mul::lemma_mul_is_commutative(w, q);
        vstd::arithmetic::div_mod::lemma_mod_multiples_vanish(q, code, w);
        vstd::arithmetic::div_mod::lemma_small_mod(code as nat, w as nat);
    }
}

/// Two different entries' codes cannot both begin the same bits.
proof fn lemma_one_code_begins(c: Codebook, x: int, i: int, s: int)
    requires
        codes_prefix_free(c),
        0 <= i < decode_range(c),
        0 <= s < decode_range(c),
        i != s,
        0 <= x,
        c.codeword_lengths@[i] != NO_CODE,
        c.codeword_lengths@[s] != NO_CODE,
        code_begins(x, entry_code(c, s) as int, c.codeword_lengths@[s] as int),
    ensures
        !code_begins(x, entry_code(c, i) as int, c.codeword_lengths@[i] as int),
{
    let li = c.codeword_lengths@[i] as nat;
    let ls = c.codeword_lengths@[s] as nat;
    if code_begins(x, entry_code(c, i) as int, li as int) {
        if li <= ls {
            lemma_mod_pow2_mod(x, ls, li);
            assert(!code_begins(entry_code(c, s) as int, entry_code(c, i) as int, li as int));
        } else {
            lemma_mod_pow2_mod(x, li, ls);
            assert(!code_begins(entry_code(c, i) as int, entry_code(c, s) as int, ls as int));
        }
    }
}

/// The fast table sends bits that begin with a short code to its entry.
proof fn lemma_fast_hit(c: Codebook, acc: u32, s: int)
    requires
        codebook_ok(c),
        codes_prefix_free(c),
        fast_table_ok(c),
        0 <= s < decode_range(c),
        s < 32767,
        c.codeword_lengths@[s] != NO_CODE,
        c.codeword_lengths@[s] <= 10,
        code_begins(acc as int, entry_code(c, s) as int, c.codeword_lengths@[s] as int),
    ensures
        c.fast_huffman@[(acc & 1023) as int] == s,
{
    let t = (acc & 1023) as int;
    let ls = c.codeword_lengths@[s] as nat;
    assert(acc & 1023 == acc % 1024) by (bit_vector);
    vstd::arithmetic::power2::lemma2_to64();
    lemma_mod_pow2_mod(acc as int, 10, ls);
    assert(code_begins(t, entry_code(c, s) as int, ls as int));
    lemma_begins_matches(c, s, t);
    assert(fast_match(c, s, t));
    assert(fast_entry_ok(c, c.fast_huffman@, t, fast_limit(c)));
    let i = c.fast_huffman@[t] as int;
    assert(0 <= i < fast_limit(c));
    assert(fast_match(c, i, t));
    if i != s {
        assert(c.codeword_lengths@[i] != NO_CODE);
        assert((entry_code(c, i) as int) < pow2(c.codeword_lengths@[i] as nat));
        lemma_begins_matches(c, i, t);
        lemma_one_code_begins(c, t, i, s);
    }
}

/// Drops `len` pending bits, or empties the accumulator (and fails) when
/// fewer are pending.
fn consume_bits(f: &mut Vorbis, len: u8) -> (r: bool)
    requires
        old(f).wf(),
        len <= 31,
    ensures
        final(f).wf(),
        r == (old(f).valid_bits >= len),
        r ==> *final(f) == (Vorbis { acc: (old(f).acc as int / pow2(len as nat) as int) as u32,
            valid_bits: (old(f).valid_bits - len) as i32, ..*old(f) }),
        !r ==> *final(f) == (Vorbis { acc: final(f).acc, valid_bits: 0, ..*old(f) }),
        final(f).valid_bits >= 0,
        r ==> page_bits(*final(f)) == page_bits(*old(f)) / pow2(len as nat) as int
            && bits_in_page(*final(f)) == bits_in_page(*old(f)) - len,
{
    let ghost f0 = *f;
    proof {
        vstd::bits::lemma_u32_shr_is_div(f.acc, len as u32);
        vstd::arithmetic::power2::lemma_pow2_pos(len as nat);
    }
    let vb = f.valid_bits;
    let acc = f.acc;
    f.acc = acc >> (len as u32);
    if vb >= len as i32 {
        proof {
            if vb - len > 0 && vb < 32 {
                vstd::arithmetic::power2::lemma_pow2_adds(len as nat, (vb - len) as nat);
                vstd::arithmetic::div_mod::lemma_multiply_divide_lt(acc as int, pow2(len as nat) as int, pow2((vb - len) as nat) as int);
            }
            if vb - len > 0 && vb == 32 {
                vstd::arithmetic::power2::lemma2_to64();
                vstd::arithmetic::power2::lemma_pow2_adds(len as nat, (vb - len) as nat);
                vstd::arithmetic::div_mod::lemma_multiply_divide_lt(acc as int, pow2(len as nat) as int, pow2((vb - len) as nat) as int);
            }
        }
        f.valid_bits = vb - len as i32;
        proof { lemma_drop_pending(f0, *f, len as nat); }
        true
    } else {
        f.valid_bits = 0;
        false
    }
}

/// The fast table has no entry for bits that begin with a code it does
/// not serve: a long one, or one of an entry past what it can name.
proof fn lemma_fast_miss(c: Codebook, acc: u32, x: int, s: int)
    requires
        codebook_ok(c),
        codes_prefix_free(c),
        fast_table_ok(c),
        0 <= s < decode_range(c),
        c.codeword_lengths@[s] != NO_CODE,
        c.codeword_lengths@[s] > 10 || s >= 32767,
        0 <= x,
        x % 1024 == acc as int % 1024,
        code_begins(x, entry_code(c, s) as int, c.codeword_lengths@[s] as int),
    ensures
        c.fast_huffman@[(acc & 1023) as int] == -1,
{
    let t = (acc & 1023) as int;
    let ls = c.codeword_lengths@[s] as nat;
    assert(acc & 1023 == acc % 1024) by (bit_vector);
    vstd::arithmetic::power2::lemma2_to64();
    assert(fast_entry_ok(c, c.fast_huffman@, t, fast_limit(c)));
    if c.fast_huffman@[t] != -1 {
        let i = c.fast_huffman@[t] as int;
        assert(fast_match(c, i, t));
        let li = c.codeword_lengths@[i] as nat;
        assert(li <= 10);
        assert(i != s);
        assert((entry_code(c, i) as int) < pow2(li));
        lemma_begins_matches(c, i, t);
        lemma_mod_pow2_mod(x, 10, li);
        lemma_one_code_begins(c, x, i, s);
    }
}

/// Bits that begin with code `a` reverse to below the reversed code `b`
/// when that lies above the reversed `a` and `a` does not begin `b`.
proof fn lemma_code_above(a: u32, la: int, b: u32, lb: int, acc: u32)
    requires
        1 <= la <= 31,
        1 <= lb <= 31,
        (a as int) < pow2(la as nat),
        (b as int) < pow2(lb as nat),
        la <= lb ==> !code_begins(b as int, a as int, la),
        code_begins(acc as int, a as int, la),
        reverse32(a) < reverse32(b),
    ensures
        reverse32(acc) < reverse32(b),
{
    lemma_code_block(a, la, acc);
    lemma_code_block(b, lb, acc);
    let ra = reverse32(a) as int;
    let rb = reverse32(b) as int;
    let wa = pow2((32 - la) as nat) as int;
    if rb <= reverse32(acc) {
        assert(ra < rb < ra + wa);
        if la <= lb {
            lemma_same_block(a, b, la);
            assert(code_begins(b as int, a as int, la));
        } else {
            let wb = pow2((32 - lb) as nat) as int;
            vstd::arithmetic::power2::lemma_pow2_adds((32 - la) as nat, (la - lb) as nat);
            vstd::arithmetic::power2::lemma_pow2_pos((32 - la) as nat);
            vstd::arithmetic::power2::lemma_pow2_pos((la - lb) as nat);
            assert(rb % wb == 0);
            assert(rb % wa == 0) by {
                let p = pow2((la - lb) as nat) as int;
                assert(wa * p == wb);
                vstd::arithmetic::div_mod::lemma_mod_mod(rb, wa, p);
                assert((rb % wb) % wa == rb % wa);
            }
            vstd::arithmetic::div_mod::lemma_fundamental_div_mod(rb, wa);
            vstd::arithmetic::div_mod::lemma_fundamental_div_mod(ra, wa);
            assert(ra / wa < rb / wa) by (nonlinear_arith)
                requires ra < rb, rb == wa * (rb / wa), ra == wa * (ra / wa), wa > 0;
            assert(ra + wa <= rb) by (nonlinear_arith)
                requires ra / wa < rb / wa, rb == wa * (rb / wa), ra == wa * (ra / wa), wa > 0;
        }
    }
}

/// What position `y` of the sorted table stands for: an entry of a dense
/// codebook, itself for a sparse one.
spec fn sorted_entry_at(c: Codebook, y: int) -> int {
    if c.sparse { y } else { c.sorted_values@[y] as int }
}

/// The binary search of the sorted table lands on the position of the entry
/// whose code the bits begin with.
proof fn lemma_search_finds(c: Codebook, acc: u32, s: int, x: int)
    requires
        codebook_ok(c),
        codes_prefix_free(c),
        sorted_table_ok(c),
        0 <= s < decode_range(c),
        c.codeword_lengths@[s] != NO_CODE,
        c.sparse || c.codeword_lengths@[s] > 10,
        code_begins(acc as int, entry_code(c, s) as int, c.codeword_lengths@[s] as int),
        0 <= x < c.sorted_entries,
        x == 0 || c.sorted_codewords@[x] <= reverse32(acc),
        forall|y: int| x < y < c.sorted_entries ==> c.sorted_codewords@[y] > reverse32(acc),
    ensures
        sorted_entry_at(c, x) == s,
{
    let ls = c.codeword_lengths@[s] as int;
    let ys = if c.sparse { s } else {
        assert(long_entry_sorted(c, s));
        choose|y: int| 0 <= y < c.sorted_entries && c.sorted_values@[y] == s
    };
    assert(0 <= ys < c.sorted_entries && sorted_entry_at(c, ys) == s);
    assert forall|y: int| 0 <= y < c.sorted_entries implies {
        let e = #[trigger] sorted_entry_at(c, y);
        &&& 0 <= e < decode_range(c)
        &&& c.codeword_lengths@[e] != NO_CODE
        &&& c.sorted_codewords@[y] == reverse32(entry_code(c, e))
    } by {
        if c.sparse {
            crate::bits::lemma_bit_reverse_involution(c.sorted_codewords@[y]);
            assert(c.codeword_lengths@[y] != NO_CODE);
        } else {
            let e = c.sorted_values@[y] as int;
            assert(0 <= e < c.entries && c.codeword_lengths@[e] != NO_CODE);
        }
    }
    assert(sorted_entry_at(c, ys) == s);
    lemma_code_block(entry_code(c, s), ls, acc);
    if x < ys {
        assert(c.sorted_codewords@[ys] > reverse32(acc));
    }
    if x > ys {
        assert(c.sorted_codewords@[ys] < c.sorted_codewords@[x]);
        let e = sorted_entry_at(c, x);
        assert(c.sorted_codewords@[x] == reverse32(entry_code(c, e)));
        assert(c.sorted_codewords@[ys] == reverse32(entry_code(c, s)));
        assert(e != s);
        let le = c.codeword_lengths@[e] as int;
        assert(1 <= le <= 31 && 1 <= ls <= 31);
        assert(c.codeword_lengths@[e] != NO_CODE);
        assert((entry_code(c, e) as int) < pow2(le as nat));
        assert((entry_code(c, s) as int) < pow2(ls as nat));
        if ls <= le {
            assert(!code_begins(entry_code(c, e) as int, entry_code(c, s) as int, ls));
        }
        lemma_code_above(entry_code(c, s), ls, entry_code(c, e), le, acc);
    }
}

/// A refill of the pending bits (as `prep_huffman` does it) brings a code
/// that the bits ahead begin with into them.
proof fn lemma_refill_holds(f0: Vorbis, f1: Vorbis, code: int, len: int)
    requires
        1 <= len <= 31,
        bits_begin_with(f0, code, len),
        0 <= f0.valid_bits ==> f0.valid_bits <= f1.valid_bits,
        0 < f0.valid_bits ==> f1.acc as int % pow2(f0.valid_bits as nat) as int == f0.acc,
        0 <= f0.valid_bits ==> f1.valid_bits >= min(bits_in_page(f0), 25),
        0 <= f0.valid_bits ==> f1.acc as int % pow2(min(f1.valid_bits as int, bits_in_page(f0)) as nat) as int
            == page_bits(f0) % pow2(min(f1.valid_bits as int, bits_in_page(f0)) as nat) as int,
    ensures
        f1.valid_bits >= len,
        code_begins(f1.acc as int, code, len),
{
    if f0.valid_bits >= len && code_begins(f0.acc as int, code, len) {
        lemma_mod_pow2_mod(f1.acc as int, f0.valid_bits as nat, len as nat);
    } else {
        let m = min(f1.valid_bits as int, bits_in_page(f0));
        lemma_page_bits_nonneg(f0);
        lemma_mod_pow2_mod(f1.acc as int, m as nat, len as nat);
        lemma_mod_pow2_mod(page_bits(f0), m as nat, len as nat);
    }
}

/// Decodes one Huffman code without the fast table: by binary search of
/// the sorted codes, or for a small dense codebook by trying each code.
/// Returns the entry (the position in the sorted table for a sparse
/// codebook), or -1.
pub fn codebook_decode_scalar_raw(f: &mut Vorbis, c: &Codebook) -> (r: i32)
    requires
        old(f).wf(),
        codebook_ok(*c),
    ensures
        final(f).wf(),
        final(f).same_setup(&*old(f)),
        progress(*final(f)) <= progress(*old(f)),
        -1 <= r < decode_range(*c),
        forall|s: int| code_pending(*old(f), *c, s) && (c.sparse || c.codeword_lengths@[s] > 10) ==> r == s,
        forall|s: int| code_pending(*old(f), *c, s) && (c.sparse || c.codeword_lengths@[s] > 10)
            && 0 <= old(f).valid_bits && 32 < bits_in_page(*old(f))
            ==> page_bits(*final(f)) == page_bits(*old(f)) / pow2(c.codeword_lengths@[s] as nat) as int
                && bits_in_page(*final(f)) == bits_in_page(*old(f)) - c.codeword_lengths@[s]
                && final(f).valid_bits >= 0,
        invalid_only_at_end(*old(f), *final(f)),
{
    reveal(invalid_only_at_end);
    let ghost f0 = *f;
    prep_huffman(f);
    let ghost f1 = *f;
    assert(0 <= f0.valid_bits && 32 < bits_in_page(f0) ==> page_bits(f1) == page_bits(f0) && bits_in_page(f1) == bits_in_page(f0));
    proof {
        assert forall|s: int| code_pending(f0, *c, s) && (c.sparse || c.codeword_lengths@[s] > 10) implies code_pending(f1, *c, s)
            && f1.valid_bits >= c.codeword_lengths@[s]
            && code_begins(f1.acc as int, entry_code(*c, s) as int, c.codeword_lengths@[s] as int) by {
            lemma_refill_holds(f0, f1, entry_code(*c, s) as int, c.codeword_lengths@[s] as int);
        }
    }
    if c.codewords.len() == 0 && c.sorted_codewords.len() == 0 {
        return -1;
    }
    let use_search = if c.entries > 8 { c.sorted_codewords.len() != 0 } else { c.codewords.len() == 0 };
    if use_search {
        let code = bit_reverse(f.acc);
        let x0 = sorted_search(&c.sorted_codewords, c.sorted_entries, code);
        let mut x = x0;
        proof {
            assert forall|s: int| code_pending(f0, *c, s) && (c.sparse || c.codeword_lengths@[s] > 10)
                implies sorted_entry_at(*c, x0 as int) == s by {
                lemma_search_finds(*c, f1.acc, s, x0 as int);
            }
        }
        if !c.sparse {
            x = c.sorted_values[x as usize];
        }
        let len = c.codeword_lengths[x as usize];
        if len == NO_CODE {
            f.valid_bits = 0;
            return -1;
        }
        if consume_bits(f, len) {
            return x;
        }
        return -1;
    }
    let mut i: usize = 0;
    while i < c.entries as usize
        invariant
            f.wf(),
            f.same_setup(&*old(f)),
            progress(*f) <= progress(*old(f)),
            codebook_ok(*c),
            !c.sparse,
            c.codewords@.len() == c.entries,
            i <= c.entries,
            *f == f1,
            f0 == *old(f),
            forall|s: int| code_pending(f0, *c, s) && (c.sparse || c.codeword_lengths@[s] > 10) ==> code_pending(f1, *c, s)
                && f1.valid_bits >= c.codeword_lengths@[s]
                && code_begins(f1.acc as int, entry_code(*c, s) as int, c.codeword_lengths@[s] as int) && i <= s,
            0 <= f0.valid_bits && 32 < bits_in_page(f0) ==> page_bits(f1) == page_bits(f0) && bits_in_page(f1) == bits_in_page(f0),
        decreases c.entries - i,
    {
        reveal(invalid_only_at_end);
        let l = c.codeword_lengths[i];
        if l != NO_CODE {
            proof {
                vstd::bits::lemma_u32_pow2_no_overflow(l as nat);
                vstd::bits::lemma_u32_shl_is_mul(1, l as u32);
            }
            let mask: u32 = ((1u32 << (l as u32)) - 1) as u32;
            if c.codewords[i] == (f.acc & mask) {
                proof {
                    vstd::bits::lemma_u32_low_bits_mask_is_mod(f.acc, l as nat);
                    assert forall|s: int| code_pending(f0, *c, s) && (c.sparse || c.codeword_lengths@[s] > 10) implies i == s by {
                        if i != s {
                            assert(entry_code(*c, i as int) == c.codewords@[i as int]);
                            lemma_one_code_begins(*c, f.acc as int, i as int, s);
                        }
                    }
                }
                if consume_bits(f, l) {
                    return i as i32;
                }
                return -1;
            }
        }
        proof {
            assert forall|s: int| code_pending(f0, *c, s) && (c.sparse || c.codeword_lengths@[s] > 10) implies i != s by {
                if i == s {
                    vstd::bits::lemma_u32_pow2_no_overflow(l as nat);
                    vstd::bits::lemma_u32_shl_is_mul(1, l as u32);
                    vstd::bits::lemma_u32_low_bits_mask_is_mod(f.acc, l as nat);
                    vstd::arithmetic::div_mod::lemma_small_mod(c.codewords@[s] as nat, pow2(l as nat));
                }
            }
        }
        i = i + 1;
    }
    error(f, VorbisError::InvalidStream);
    f.valid_bits = 0;
    -1
}

/// Decodes one Huffman code, through the fast table when the code is
/// short. Returns the entry (the sorted position for a sparse codebook), or -1.
pub fn codebook_decode_scalar(f: &mut Vorbis, c: &Codebook) -> (r: i32)
    requires
        old(f).wf(),
        codebook_ok(*c),
    ensures
        final(f).wf(),
        final(f).same_setup(&*old(f)),
        progress(*final(f)) <= progress(*old(f)),
        -1 <= r < decode_range(*c),
        forall|s: int| code_pending(*old(f), *c, s) ==> r == s,
        forall|s: int| code_pending(*old(f), *c, s) && 0 <= old(f).valid_bits && 32 < bits_in_page(*old(f))
            ==> page_bits(*final(f)) == page_bits(*old(f)) / pow2(c.codeword_lengths@[s] as nat) as int
                && bits_in_page(*final(f)) == bits_in_page(*old(f)) - c.codeword_lengths@[s]
                && final(f).valid_bits >= 0,
        invalid_only_at_end(*old(f), *final(f)),
{
    reveal(invalid_only_at_end);
    let ghost f0 = *f;
    if f.valid_bits < STB_FAST_HUFFMAN_LENGTH {
        prep_huffman(f);
    }
    assert(0 <= f0.valid_bits && 32 < bits_in_page(f0) ==> page_bits(*f) == page_bits(f0) && bits_in_page(*f) == bits_in_page(f0));
    proof {
        vstd::arithmetic::power2::lemma2_to64();
        assert forall|s: int| code_pending(f0, *c, s) implies code_pending(*f, *c, s)
            && (f0.valid_bits < 10 || c.codeword_lengths@[s] <= 10 ==> f.valid_bits >= c.codeword_lengths@[s]
                && code_begins(f.acc as int, entry_code(*c, s) as int, c.codeword_lengths@[s] as int)) by {
            if f0.valid_bits < 10 {
                lemma_refill_holds(f0, *f, entry_code(*c, s) as int, c.codeword_lengths@[s] as int);
            } else if c.codeword_lengths@[s] <= 10 {
                lemma_pending_prefix(f0, c.codeword_lengths@[s] as int);
            }
        }
        assert forall|s: int| code_pending(f0, *c, s) && c.codeword_lengths@[s] <= 10 && s < 32767
            implies c.fast_huffman@[(f.acc & 1023) as int] == s by {
            lemma_fast_hit(*c, f.acc, s);
        }
        assert forall|s: int| code_pending(f0, *c, s) && (c.codeword_lengths@[s] > 10 || s >= 32767)
            implies c.fast_huffman@[(f.acc & 1023) as int] == -1 && code_pending(*f, *c, s)
            && (c.sparse || c.codeword_lengths@[s] > 10) by {
            if f0.valid_bits < 10 || (f0.valid_bits >= c.codeword_lengths@[s]
                && code_begins(f0.acc as int, entry_code(*c, s) as int, c.codeword_lengths@[s] as int)) {
                lemma_fast_miss(*c, f.acc, f.acc as int, s);
            } else {
                lemma_pending_prefix(f0, 10);
                lemma_page_bits_nonneg(f0);
                lemma_fast_miss(*c, f.acc, page_bits(f0), s);
            }
        }
    }
    let a = f.acc;
    let t = (a & 1023) as usize;
    assert(a & 1023 < 1024) by (bit_vector);
    let i = c.fast_huffman[t];
    if i >= 0 {
        let len = c.codeword_lengths[i as usize];
        if consume_bits(f, len) {
            return i as i32;
        }
        return -1;
    }
    codebook_decode_scalar_raw(f, c)
}

/// Decodes one Huffman code and gives its symbol (the recorded symbol for a
/// sparse codebook), or -1.
pub fn decode_raw(f: &mut Vorbis, c: &Codebook) -> (r: i32)
    requires
        old(f).wf(),
        codebook_ok(*c),
    ensures
        final(f).wf(),
        final(f).same_setup(&*old(f)),
        progress(*final(f)) <= progress(*old(f)),
        -1 <= r < c.entries,
        forall|s: int| code_pending(*old(f), *c, s) ==> r == decoded_symbol(*c, s),
        forall|s: int| code_pending(*old(f), *c, s) && 0 <= old(f).valid_bits && 32 < bits_in_page(*old(f))
            ==> page_bits(*final(f)) == page_bits(*old(f)) / pow2(c.codeword_lengths@[s] as nat) as int
                && bits_in_page(*final(f)) == bits_in_page(*old(f)) - c.codeword_lengths@[s]
                && final(f).valid_bits >= 0,
        invalid_only_at_end(*old(f), *final(f)),
{
    reveal(invalid_only_at_end);
    let v = codebook_decode_scalar(f, c);
    if c.sparse {
        if v >= 0 && (v as usize) < c.sorted_values.len() {
            return c.sorted_values[v as usize];
        }
        return -1;
    }
    if v >= 0 && v < c.entries {
        v
    } else {
        -1
    }
}

/// The bits `p` (first bit lowest) hold from bit `pos` on the code of entry
/// `s` of `c` (of position `s` of its sorted table when `c` is sparse),
/// whose tables are sound; the code has at most 25 bits, as many as a
/// refill of the pending bits always brings in.
pub open spec fn code_at(c: Codebook, p: int, pos: int, s: int) -> bool {
    &&& codes_prefix_free(c)
    &&& fast_table_ok(c)
    &&& sorted_table_ok(c)
    &&& 0 <= s < decode_range(c)
    &&& c.codeword_lengths@[s] != NO_CODE
    &&& c.codeword_lengths@[s] <= 25
    &&& !c.sparse && c.codeword_lengths@[s] <= 10 ==> s < 32767
    &&& code_begins(p / pow2(pos as nat) as int, entry_code(c, s) as int, c.codeword_lengths@[s] as int)
}

/// A decode with `c` at bit `pos` of the bits `p` of a page that ends at
/// bit `t`: whether a code stands there with room to spare (a refill reads
/// up to 32 bits ahead), the value it gives, and how many bits it takes.
pub open spec fn code_read(c: Codebook, p: int, pos: int, t: int) -> (bool, int, int) {
    if pos + 33 <= t && exists|s: int| code_at(c, p, pos, s) {
        let s = choose|s: int| code_at(c, p, pos, s);
        (true, decoded_symbol(c, s), c.codeword_lengths@[s] as int)
    } else {
        (false, 0, 0)
    }
}

/// Decodes one code as `decode_raw` does, for a reader that follows where
/// it stands in the bits `p` of the page: where a code stands there, it
/// gives what `code_read` says and moves past the code.
pub(crate) fn decode_at(f: &mut Vorbis, c: &Codebook, Ghost(p): Ghost<int>, Ghost(pos): Ghost<int>, Ghost(t): Ghost<int>) -> (r: i32)
    requires
        old(f).wf(),
        codebook_ok(*c),
    ensures
        final(f).wf(),
        final(f).same_setup(&*old(f)),
        progress(*final(f)) <= progress(*old(f)),
        -1 <= r < c.entries,
        invalid_only_at_end(*old(f), *final(f)),
        reading_at(*old(f), p, pos, t) && code_read(*c, p, pos, t).0 ==> r == code_read(*c, p, pos, t).1
            && reading_at(*final(f), p, pos + code_read(*c, p, pos, t).2, t),
{
    let ghost f0 = *f;
    let ghost s = choose|s: int| code_at(*c, p, pos, s);
    proof {
        if reading_at(f0, p, pos, t) && code_read(*c, p, pos, t).0 {
            assert(code_at(*c, p, pos, s));
            assert(bits_begin_with(f0, entry_code(*c, s) as int, c.codeword_lengths@[s] as int));
            assert(code_pending(f0, *c, s));
        }
    }
    let r = decode_raw(f, c);
    proof {
        if reading_at(f0, p, pos, t) && code_read(*c, p, pos, t).0 {
            lemma_bits_after(p, pos as nat, c.codeword_lengths@[s] as nat);
        }
    }
    r
}

/// Starts decoding a vector: decodes the entry, which must have a lookup
/// table; -1 at the end of the packet, or (recording an invalid stream)
/// when the codebook has no lookup table or the code is not found.
pub fn codebook_decode_start(f: &mut Vorbis, c: &Codebook) -> (r: i32)
    requires
        old(f).wf(),
        codebook_ok(*c),
    ensures
        final(f).wf(),
        final(f).same_setup(&*old(f)),
        progress(*final(f)) <= progress(*old(f)),
        -1 <= r < decode_range(*c),
        c.lookup_type == 0 ==> r == -1 && final(f).error == VorbisError::InvalidStream,
        forall|s: int| c.lookup_type != 0 && code_pending(*old(f), *c, s) ==> r == s,
        forall|s: int| c.lookup_type != 0 && code_pending(*old(f), *c, s) && 0 <= old(f).valid_bits && 32 < bits_in_page(*old(f))
            ==> page_bits(*final(f)) == page_bits(*old(f)) / pow2(c.codeword_lengths@[s] as nat) as int
                && bits_in_page(*final(f)) == bits_in_page(*old(f)) - c.codeword_lengths@[s]
                && final(f).valid_bits >= 0,
{
    if c.lookup_type == 0 {
        error(f, VorbisError::InvalidStream);
        return -1;
    }
    let z = codebook_decode_scalar(f, c);
    if z < 0 && f.bytes_in_seg == 0 {
        if f.last_seg {
            return z;
        }
        error(f, VorbisError::InvalidStream);
    }
    z
}

/// A decode of an entry with `c` at bit `pos` of the bits `p` of a page
/// that ends at bit `t`, as the start of a vector does it: whether a code
/// stands there with room to spare and `c` has a lookup table, the entry
/// (its position in the sorted table when `c` is sparse), and how many bits
/// the code takes.
pub open spec fn entry_read(c: Codebook, p: int, pos: int, t: int) -> (bool, int, int) {
    if c.lookup_type != 0 && pos + 33 <= t && exists|s: int| code_at(c, p, pos, s) {
        let s = choose|s: int| code_at(c, p, pos, s);
        (true, s, c.codeword_lengths@[s] as int)
    } else {
        (false, 0, 0)
    }
}

/// Starts a vector as `codebook_decode_start` does, for a reader that
/// follows where it stands in the bits `p` of the page: where an entry's
/// code stands there, it gives what `entry_read` says and moves past it.
pub(crate) fn decode_start_at(f: &mut Vorbis, c: &Codebook, Ghost(p): Ghost<int>, Ghost(pos): Ghost<int>, Ghost(t): Ghost<int>) -> (r: i32)
    requires
        old(f).wf(),
        codebook_ok(*c),
    ensures
        final(f).wf(),
        final(f).same_setup(&*old(f)),
        progress(*final(f)) <= progress(*old(f)),
        -1 <= r < decode_range(*c),
        c.lookup_type == 0 ==> r == -1 && final(f).error == VorbisError::InvalidStream,
        reading_at(*old(f), p, pos, t) && entry_read(*c, p, pos, t).0 ==> r == entry_read(*c, p, pos, t).1
            && reading_at(*final(f), p, pos + entry_read(*c, p, pos, t).2, t),
{
    let ghost f0 = *f;
    let ghost s = choose|s: int| code_at(*c, p, pos, s);
    proof {
        if reading_at(f0, p, pos, t) && entry_read(*c, p, pos, t).0 {
            assert(code_at(*c, p, pos, s));
            assert(bits_begin_with(f0, entry_code(*c, s) as int, c.codeword_lengths@[s] as int));
            assert(code_pending(f0, *c, s));
        }
    }
    let r = codebook_decode_start(f, c);
    proof {
        if reading_at(f0, p, pos, t) && entry_read(*c, p, pos, t).0 {
            lemma_bits_after(p, pos as nat, c.codeword_lengths@[s] as nat);
        }
    }
    r
}

/// Decodes an entry as `codebook_decode_scalar` does, for a reader that
/// follows where it stands in the bits `p` of the page: where an entry's
/// code stands there, it gives what `entry_read` says and moves past it.
pub(crate) fn decode_scalar_at(f: &mut Vorbis, c: &Codebook, Ghost(p): Ghost<int>, Ghost(pos): Ghost<int>,
    Ghost(t): Ghost<int>) -> (r: i32)
    requires
        old(f).wf(),
        codebook_ok(*c),
    ensures
        final(f).wf(),
        final(f).same_setup(&*old(f)),
        progress(*final(f)) <= progress(*old(f)),
        -1 <= r < decode_range(*c),
        invalid_only_at_end(*old(f), *final(f)),
        reading_at(*old(f), p, pos, t) && entry_read(*c, p, pos, t).0 ==> r == entry_read(*c, p, pos, t).1
            && reading_at(*final(f), p, pos + entry_read(*c, p, pos, t).2, t),
{
    let ghost f0 = *f;
    let ghost s = choose|s: int| code_at(*c, p, pos, s);
    proof {
        if reading_at(f0, p, pos, t) && entry_read(*c, p, pos, t).0 {
            assert(code_at(*c, p, pos, s));
            assert(bits_begin_with(f0, entry_code(*c, s) as int, c.codeword_lengths@[s] as int));
            assert(code_pending(f0, *c, s));
        }
    }
    let r = codebook_decode_scalar(f, c);
    proof {
        if reading_at(f0, p, pos, t) && entry_read(*c, p, pos, t).0 {
            lemma_bits_after(p, pos as nat, c.codeword_lengths@[s] as nat);
        }
    }
    r
}

} // verus!
