use vstd::prelude::*;
use vstd::arithmetic::power::pow;
use vstd::arithmetic::power2::pow2;
use crate::bits::{ilog, ilog_spec, reverse32, lookup1_values, neighbors, is_low_neighbor, is_high_neighbor};
use crate::codebook::{codebook_ok, decode_range, codes_prefix_free, fast_table_ok, code_begins, lemma_tables_kept,
    sorted_table_ok, long_entry_sorted, code_pending, bits_begin_with};
use crate::huffman::{entry_code, lowest_code, code_free_after, dense_assignable, dense_code_fails_at, lemma_assignable_never_fails};
use crate::huffman::{lemma_code_fits, lemma_disjoint_not_prefix, lemma_count_long_zero, sorted_entry, placed, sort_count, NO_CODE, code_ok, codes_disjoint, count_used, count_long, entry_sorted, compute_codewords, compute_sorted_huffman, compute_accelerated_huffman, fast_entry_ok, fast_match, fast_limit};
use crate::ogg::{get_bits, get_field, page_bits, bits_in_page, bit_field, reading_at, lemma_bits_after, lemma_page_bits_nonneg};
use crate::types::{Codebook, Floor, Floor0, Floor1, Mapping, MappingChannel, Mode, Residue, VorbisError};
use crate::vorbis::{Vorbis, error, byte_at, le32_at, get8, get32, getn, PACKET_ID, PAGEFLAG_CONTINUED_PACKET, PAGEFLAG_FIRST_PAGE, PAGEFLAG_LAST_PAGE};
use crate::ogg::{header_cut, start_page, start_packet, next_segment, get8_packet, flush_packet, progress};
use crate::pushdata::is_whole_packet_present;
use crate::vorbis::{skip, stb_vorbis_get_file_offset, PACKET_SETUP};
use crate::bits::vorbis_validate;

verus! {

/// Digit `k` (counted from the most significant of `dims` digits) of `j`
/// written in base `c`: the classification that entry `j` of a residue's
/// class book gives the `k`-th partition of a group.
pub open spec fn class_digit(j: int, c: int, dims: int, k: int) -> int {
    (j / pow(c, (dims - 1 - k) as nat)) % c
}

/// Digit `k` (counted from the least significant) of the symbol `z` in base
/// `lv`: which of the `lv` values of a lookup-type-1 codebook dimension `k`
/// of entry `z` takes.
pub open spec fn lookup1_digit(z: int, lv: int, k: int) -> int {
    (z / pow(lv, k as nat)) % lv
}

/// `pow(b, k + 1)` is `pow(b, k) * b`, and is positive for positive `b`.
proof fn lemma_pow_step(b: int, k: nat)
    requires
        b > 0,
    ensures
        pow(b, k + 1) == pow(b, k) * b,
        pow(b, k) > 0,
{
    vstd::arithmetic::power::lemma_pow_adds(b, k, 1);
    vstd::arithmetic::power::lemma_pow1(b);
    vstd::arithmetic::power::lemma_pow_positive(b, k);
}

/// For each entry `j` of a class book, the classifications of the `dims`
/// partitions it encodes: the base-`classifications` digits of `j`, most
/// significant first.
pub fn compute_classdata(entries: i32, dims: i32, classifications: u8) -> (r: Vec<Vec<u8>>)
    requires
        entries >= 0,
        dims >= 0,
        classifications >= 1,
    ensures
        r@.len() == entries,
        forall|j: int| 0 <= j < entries ==> (#[trigger] r@[j])@.len() == dims,
        forall|j: int, k: int| #![trigger r@[j]@[k]] 0 <= j < entries && 0 <= k < dims
            ==> r@[j]@[k] == class_digit(j, classifications as int, dims as int, k),
{
    let c = classifications as u32;
    let mut out: Vec<Vec<u8>> = Vec::new();
    let mut j: i32 = 0;
    while j < entries
        invariant
            0 <= j <= entries,
            c == classifications,
            c >= 1,
            dims >= 0,
            out@.len() == j,
            forall|jj: int| 0 <= jj < j ==> (#[trigger] out@[jj])@.len() == dims,
            forall|jj: int, k: int| #![trigger out@[jj]@[k]] 0 <= jj < j && 0 <= k < dims
                ==> out@[jj]@[k] == class_digit(jj, c as int, dims as int, k),
        decreases entries - j,
    {
        let mut row: Vec<u8> = Vec::new();
        let mut q: i32 = 0;
        while q < dims
            invariant
                0 <= q <= dims,
                row@.len() == q,
            decreases dims - q,
        {
            row.push(0);
            q = q + 1;
        }
        let mut temp: u32 = j as u32;
        let mut i: i32 = 0;
        proof {
            vstd::arithmetic::power::lemma_pow0(c as int);
        }
        while i < dims
            invariant
                0 <= i <= dims,
                0 <= j,
                1 <= c <= 255,
                row@.len() == dims,
                temp as int == j as int / pow(c as int, i as nat),
                forall|p: int| dims - i <= p < dims ==> #[trigger] row@[p] == class_digit(j as int, c as int, dims as int, p),
            decreases dims - i,
        {
            let p = (dims - 1 - i) as usize;
            proof {
                vstd::arithmetic::div_mod::lemma_mod_bound(temp as int, c as int);
            }
            row.set(p, (temp % c) as u8);
            proof {
                lemma_pow_step(c as int, i as nat);
                vstd::arithmetic::div_mod::lemma_div_denominator(j as int, pow(c as int, i as nat), c as int);
                assert(class_digit(j as int, c as int, dims as int, p as int) == (j as int / pow(c as int, i as nat)) % (c as int));
            }
            temp = temp / c;
            i = i + 1;
        }
        out.push(row);
        j = j + 1;
    }
    out
}

/// The symbol of the `j`-th entry of a codebook's lookup table: the
/// recorded symbol for a sparse codebook, `j` itself for a dense one.
pub open spec fn lookup_symbol(sparse: bool, sorted_values: Seq<i32>, j: int) -> int {
    if sparse { sorted_values[j] as int } else { j }
}

/// Expands a lookup-type-1 table: for each of the first `n` entries and
/// each dimension `k`, the multiplicand that digit `k` of the entry's
/// symbol selects. Fails when `lv^(dims - 1)` does not fit in 32 bits.
pub fn expand_lookup1(mults: &Vec<u16>, lv: u32, dims: i32, n: i32, sparse: bool, sorted_values: &Vec<i32>)
    -> (r: Option<Vec<u16>>)
    requires
        lv >= 1,
        mults@.len() == lv,
        dims >= 0,
        n >= 0,
        n * dims <= 0x7fff_ffff,
        sparse ==> sorted_values@.len() >= n,
        sparse ==> forall|j: int| 0 <= j < n ==> #[trigger] sorted_values@[j] >= 0,
    ensures
        r is Some <==> (n == 0 || dims < 2 || pow(lv as int, (dims - 1) as nat) <= 0xffff_ffff),
        r is Some ==> r->0@.len() == n * dims,
        r is Some ==> forall|i: int| 0 <= i < n * dims ==> #[trigger] r->0@[i]
            == mults@[lookup1_digit(lookup_symbol(sparse, sorted_values@, i / dims as int), lv as int, i % dims as int)],
{
    let mut out: Vec<u16> = Vec::new();
    let mut j: i32 = 0;
    let ghost lvi = lv as int;
    while j < n
        invariant
            0 <= j <= n,
            lv >= 1,
            lvi == lv,
            mults@.len() == lv,
            dims >= 0,
            n * dims <= 0x7fff_ffff,
            sparse ==> sorted_values@.len() >= n,
            sparse ==> forall|jj: int| 0 <= jj < n ==> #[trigger] sorted_values@[jj] >= 0,
            out@.len() == j * dims,
            j > 0 && dims >= 1 ==> pow(lvi, (dims - 1) as nat) <= 0xffff_ffff,
            forall|i: int| 0 <= i < j * dims ==> #[trigger] out@[i]
                == mults@[lookup1_digit(lookup_symbol(sparse, sorted_values@, i / dims as int), lvi, i % dims as int)],
        decreases n - j,
    {
        let z: u32 = if sparse { sorted_values[j as usize] as u32 } else { j as u32 };
        let ghost zi = lookup_symbol(sparse, sorted_values@, j as int);
        assert(z as int == zi);
        let mut div: u32 = 1;
        let mut k: i32 = 0;
        proof {
            vstd::arithmetic::power::lemma_pow0(lvi);
            assert((j + 1) * dims <= n * dims) by (nonlinear_arith) requires j + 1 <= n, dims >= 0;
            assert(j * dims + dims == (j + 1) * dims) by (nonlinear_arith);
        }
        while k < dims
            invariant
                0 <= k <= dims,
                0 <= j < n,
                lv >= 1,
                lvi == lv,
                mults@.len() == lv,
                zi == z,
                zi == lookup_symbol(sparse, sorted_values@, j as int),
                (j + 1) * dims <= 0x7fff_ffff,
                j * dims + dims == (j + 1) * dims,
                out@.len() == j * dims + k,
                k < dims ==> div as int == pow(lvi, k as nat),
                div >= 1,
                forall|i: int| 0 <= i < j * dims + k ==> #[trigger] out@[i]
                    == mults@[lookup1_digit(lookup_symbol(sparse, sorted_values@, i / dims as int), lvi, i % dims as int)],
                k > 0 && k == dims && dims >= 1 ==> pow(lvi, (dims - 1) as nat) <= 0xffff_ffff,
                k < dims ==> pow(lvi, k as nat) <= 0xffff_ffff,
            decreases dims - k,
        {
            let off = (z / div) % lv;
            proof {
                vstd::arithmetic::div_mod::lemma_mod_bound((z / div) as int, lv as int);
            }
            let ghost idx = j * dims + k;
            proof {
                vstd::arithmetic::div_mod::lemma_fundamental_div_mod_converse(idx, dims as int, j as int, k as int);
            }
            out.push(mults[off as usize]);
            if k + 1 < dims {
                if div > 0xffff_ffffu32 / lv {
                    proof {
                        lemma_pow_step(lvi, k as nat);
                        vstd::arithmetic::div_mod::lemma_fundamental_div_mod(0xffff_ffff, lvi);
                        vstd::arithmetic::div_mod::lemma_mod_bound(0xffff_ffff, lvi);
                        let qq = 0xffff_ffffint / lvi;
                        assert(div as int * lvi > 0xffff_ffff) by (nonlinear_arith)
                            requires div as int >= qq + 1, 0xffff_ffff == lvi * qq + 0xffff_ffffint % lvi,
                                0xffff_ffffint % lvi < lvi, lvi >= 1;
                        vstd::arithmetic::power::lemma_pow_increases(lv as nat, (k + 1) as nat, (dims - 1) as nat);
                    }
                    return None;
                }
                proof {
                    lemma_pow_step(lvi, k as nat);
                    vstd::arithmetic::div_mod::lemma_fundamental_div_mod(0xffff_ffff, lvi);
                    vstd::arithmetic::div_mod::lemma_mod_bound(0xffff_ffff, lvi);
                    let qq = 0xffff_ffffint / lvi;
                    assert(div as int * lvi <= 0xffff_ffff) by (nonlinear_arith)
                        requires div as int <= qq, 0xffff_ffff == lvi * qq + 0xffff_ffffint % lvi,
                            0xffff_ffffint % lvi >= 0, lvi >= 1;
                    assert(div as int * lvi >= 1) by (nonlinear_arith) requires div >= 1, lvi >= 1;
                }
                div = div * lv;
            }
            k = k + 1;
        }
        j = j + 1;
    }
    proof {
        if !(n == 0 || dims < 2) {
            assert(j > 0);
        }
    }
    Some(out)
}

/// A vector of `n` copies of `v`.
pub(crate) fn filled<T: Copy>(v: T, n: usize) -> (r: Vec<T>)
    ensures
        r@.len() == n,
        forall|i: int| 0 <= i < n ==> #[trigger] r@[i] == v,
{
    let mut out: Vec<T> = Vec::new();
    let mut i: usize = 0;
    while i < n
        invariant
            i <= n,
            out@.len() == i,
            forall|k: int| 0 <= k < i ==> #[trigger] out@[k] == v,
        decreases n - i,
    {
        out.push(v);
        i = i + 1;
    }
    out
}

/// `prefix` put before the lengths `o`, if there are any.
pub open spec fn lengths_after(prefix: Seq<u8>, o: Option<Seq<u8>>) -> Option<Seq<u8>> {
    match o {
        Some(rest) => Some(prefix + rest),
        None => None,
    }
}

/// The code lengths of entries `i..entries` listed one by one from bit
/// `pos` of `p` (each behind a bit saying whether the entry has a code,
/// when `sparse`: 5 bits of the length less one), and where they end; no
/// lengths when one of them is 32.
pub open spec fn listed_lengths(p: int, pos: int, i: int, entries: int, sparse: bool) -> (Option<Seq<u8>>, int)
    decreases entries - i,
{
    if i >= entries {
        (Some(Seq::<u8>::empty()), pos)
    } else {
        let q = pos + (if sparse { 1int } else { 0int });
        if sparse && bit_field(p, pos as nat, 1) == 0 {
            let (rest, e) = listed_lengths(p, q, i + 1, entries, sparse);
            (lengths_after(seq![NO_CODE], rest), e)
        } else {
            let l = bit_field(p, q as nat, 5) + 1;
            if l == 32 {
                (None, q + 5)
            } else {
                let (rest, e) = listed_lengths(p, q + 5, i + 1, entries, sparse);
                (lengths_after(seq![l as u8], rest), e)
            }
        }
    }
}

/// The code lengths of entries `count..entries` written in runs of
/// increasing length from `cur` on, from bit `pos` of `p` (for each length
/// how many entries have it, in as many bits as the count of entries left
/// needs), and where they end; no lengths when a length passes 32 or a run
/// passes the last entry.
pub open spec fn run_lengths(p: int, pos: int, count: int, cur: int, entries: int) -> (Option<Seq<u8>>, int)
    decreases 33 - cur,
{
    if count >= entries {
        (Some(Seq::<u8>::empty()), pos)
    } else if cur > 32 || cur < 1 {
        (None, pos)
    } else {
        let b = ilog_spec(entries - count);
        let n = bit_field(p, pos as nat, b as nat);
        if count + n > entries {
            (None, pos + b)
        } else {
            let (rest, e) = run_lengths(p, pos + b, count + n, cur + 1, entries);
            (lengths_after(Seq::new(n as nat, |k: int| cur as u8), rest), e)
        }
    }
}

/// The code lengths of a codebook's `entries` entries in the bits `p` from
/// `pos` on, and where they end.
pub open spec fn codebook_lengths(p: int, pos: int, entries: int, ordered: bool, sparse: bool) -> (Option<Seq<u8>>, int) {
    if ordered {
        run_lengths(p, pos + 5, 0, bit_field(p, pos as nat, 5) + 1, entries)
    } else {
        listed_lengths(p, pos, 0, entries, sparse)
    }
}

/// Listed lengths end after where they start.
proof fn lemma_listed_end(p: int, pos: int, i: int, entries: int, sparse: bool)
    ensures
        listed_lengths(p, pos, i, entries, sparse).1 >= pos,
    decreases entries - i,
{
    if i < entries {
        let q = pos + (if sparse { 1int } else { 0int });
        lemma_listed_end(p, q, i + 1, entries, sparse);
        lemma_listed_end(p, q + 5, i + 1, entries, sparse);
    }
}

/// Runs of lengths end after where they start.
proof fn lemma_run_end(p: int, pos: int, count: int, cur: int, entries: int)
    ensures
        run_lengths(p, pos, count, cur, entries).1 >= pos,
    decreases 33 - cur,
{
    if count < entries && 1 <= cur <= 32 {
        let b = ilog_spec(entries - count);
        let n = bit_field(p, pos as nat, b as nat);
        crate::bits::lemma_ilog_bounds(entries - count);
        if count + n <= entries {
            lemma_run_end(p, pos + b, count + n, cur + 1, entries);
        }
    }
}

/// Reads the code lengths of `entries` entries: runs of entries with
/// increasing lengths when `ordered`, else one length per entry, preceded
/// for a sparse codebook by a bit saying whether the entry has a code.
fn read_codeword_lengths(f: &mut Vorbis, entries: i32, ordered: bool, sparse: bool, Ghost(p): Ghost<int>,
    Ghost(pos0): Ghost<int>, Ghost(t): Ghost<int>) -> (r: Option<Vec<u8>>)
    requires
        old(f).wf(),
        0 <= entries < 0x100_0000,
    ensures
        final(f).wf(),
        final(f).same_setup(&*old(f)),
        r is Some ==> r->0@.len() == entries,
        r is Some ==> forall|i: int| 0 <= i < entries ==> #[trigger] r->0@[i] == NO_CODE || 1 <= r->0@[i] <= 32,
        r is None ==> final(f).error == VorbisError::InvalidSetup,
        reading_at(*old(f), p, pos0, t) && codebook_lengths(p, pos0, entries as int, ordered, sparse).1 <= t ==> {
            let (spec, e) = codebook_lengths(p, pos0, entries as int, ordered, sparse);
            &&& r is Some <==> spec is Some
            &&& r matches Some(l) ==> l@ == spec->0 && reading_at(*final(f), p, e, t)
        },
{
    let ghost exact = reading_at(*f, p, pos0, t) && codebook_lengths(p, pos0, entries as int, ordered, sparse).1 <= t;
    let ghost whole = codebook_lengths(p, pos0, entries as int, ordered, sparse);
    let ghost mut pos: int = pos0;
    let mut lengths: Vec<u8> = Vec::new();
    proof { vstd::arithmetic::power2::lemma2_to64(); }
    if ordered {
        proof {
            if exact {
                lemma_run_end(p, pos0 + 5, 0, bit_field(p, pos0 as nat, 5) + 1, entries as int);
            }
        }
        let mut current_length: i32 = get_field(f, 5, Ghost(p), Ghost(pos), Ghost(t)) as i32 + 1;
        proof { pos = pos + 5; }
        while (lengths.len() as i32) < entries
            invariant
                f.wf(),
                f.same_setup(&*old(f)),
                0 <= entries < 0x100_0000,
                lengths@.len() <= entries,
                1 <= current_length <= 33,
                forall|i: int| 0 <= i < lengths@.len() ==> 1 <= #[trigger] lengths@[i] <= 32,
                whole == codebook_lengths(p, pos0, entries as int, ordered, sparse),
                ordered,
                exact == (reading_at(*old(f), p, pos0, t) && whole.1 <= t),
                exact ==> reading_at(*f, p, pos, t) && whole.1 <= t
                    && run_lengths(p, pos, lengths@.len() as int, current_length as int, entries as int).1 == whole.1
                    && whole.0 == lengths_after(lengths@,
                        run_lengths(p, pos, lengths@.len() as int, current_length as int, entries as int).0),
            decreases 34 - current_length,
        {
            if current_length > 32 {
                error(f, VorbisError::InvalidSetup);
                return None;
            }
            let cur = lengths.len() as i32;
            let b = ilog(entries - cur);
            proof {
                vstd::arithmetic::power2::lemma2_to64();
                if b > 25 {
                    vstd::arithmetic::power2::lemma_pow2_strictly_increases(24, (b - 1) as nat);
                }
                if b < 24 {
                    vstd::arithmetic::power2::lemma_pow2_strictly_increases(b as nat, 24);
                }
                if exact {
                    let nn = bit_field(p, pos as nat, b as nat);
                    if cur + nn <= entries {
                        lemma_run_end(p, pos + b, cur + nn, current_length + 1, entries as int);
                    }
                }
            }
            let n = get_field(f, b, Ghost(p), Ghost(pos), Ghost(t)) as i32;
            proof { pos = pos + b; }
            if cur + n > entries {
                error(f, VorbisError::InvalidSetup);
                return None;
            }
            let ghost before = lengths@;
            let mut k: i32 = 0;
            while k < n
                invariant
                    0 <= k <= n,
                    cur + n <= entries,
                    lengths@.len() == cur + k,
                    1 <= current_length <= 32,
                    forall|i: int| 0 <= i < lengths@.len() ==> 1 <= #[trigger] lengths@[i] <= 32,
                    before.len() == cur,
                    lengths@ == before + Seq::new(k as nat, |q: int| current_length as u8),
                decreases n - k,
            {
                lengths.push(current_length as u8);
                k = k + 1;
                proof {
                    assert(lengths@ =~= before + Seq::new(k as nat, |q: int| current_length as u8));
                }
            }
            proof {
                if exact {
                    let ns = Seq::new(n as nat, |q: int| current_length as u8);
                    let rr = run_lengths(p, pos, cur + n, current_length + 1, entries as int);
                    assert(lengths@ == before + ns);
                    match rr.0 {
                        Some(rest) => {
                            assert(before + (ns + rest) =~= (before + ns) + rest);
                        },
                        None => {},
                    }
                }
            }
            current_length = current_length + 1;
        }
        proof {
            if exact {
                assert(lengths@ + Seq::<u8>::empty() =~= lengths@);
            }
        }
    } else {
        let mut i: i32 = 0;
        proof {
            if exact {
                lemma_listed_end(p, pos0, 0, entries as int, sparse);
            }
        }
        while i < entries
            invariant
                f.wf(),
                f.same_setup(&*old(f)),
                0 <= i <= entries,
                lengths@.len() == i,
                forall|k: int| 0 <= k < i ==> #[trigger] lengths@[k] == NO_CODE || 1 <= lengths@[k] <= 31,
                whole == codebook_lengths(p, pos0, entries as int, ordered, sparse),
                !ordered,
                exact == (reading_at(*old(f), p, pos0, t) && whole.1 <= t),
                exact ==> reading_at(*f, p, pos, t) && whole.1 <= t
                    && listed_lengths(p, pos, i as int, entries as int, sparse).1 == whole.1
                    && whole.0 == lengths_after(lengths@, listed_lengths(p, pos, i as int, entries as int, sparse).0),
            decreases entries - i,
        {
            proof {
                vstd::arithmetic::power2::lemma2_to64();
                if exact {
                    let q = pos + (if sparse { 1int } else { 0int });
                    lemma_listed_end(p, q, i + 1, entries as int, sparse);
                    lemma_listed_end(p, q + 5, i + 1, entries as int, sparse);
                }
            }
            let ghost before = lengths@;
            let mut present: u32 = 1;
            if sparse {
                present = get_field(f, 1, Ghost(p), Ghost(pos), Ghost(t));
                proof { pos = pos + 1; }
            }
            if present != 0 {
                let l = get_field(f, 5, Ghost(p), Ghost(pos), Ghost(t)) + 1;
                proof { pos = pos + 5; }
                if l == 32 {
                    error(f, VorbisError::InvalidSetup);
                    return None;
                }
                lengths.push(l as u8);
                proof {
                    if exact {
                        let rr = listed_lengths(p, pos, i + 1, entries as int, sparse);
                        match rr.0 {
                            Some(rest) => {
                                assert(before + (seq![l as u8] + rest) =~= lengths@ + rest);
                            },
                            None => {},
                        }
                    }
                }
            } else {
                lengths.push(NO_CODE);
                proof {
                    if exact {
                        let rr = listed_lengths(p, pos, i + 1, entries as int, sparse);
                        match rr.0 {
                            Some(rest) => {
                                assert(before + (seq![NO_CODE] + rest) =~= lengths@ + rest);
                            },
                            None => {},
                        }
                    }
                }
            }
            i = i + 1;
        }
        proof {
            if exact {
                assert(lengths@ + Seq::<u8>::empty() =~= lengths@);
            }
        }
    }
    Some(lengths)
}

/// How many of the lengths give an entry a code.
fn count_present(lengths: &Vec<u8>) -> (r: i32)
    requires
        lengths@.len() < 0x7fff_ffff,
    ensures
        r == count_used(lengths@, lengths@.len() as int),
        0 <= r <= lengths@.len(),
{
    let mut n: i32 = 0;
    let mut i: usize = 0;
    while i < lengths.len()
        invariant
            i <= lengths@.len() < 0x7fff_ffff,
            n == count_used(lengths@, i as int),
            0 <= n <= i,
        decreases lengths@.len() - i,
    {
        if lengths[i] != NO_CODE {
            n = n + 1;
        }
        i = i + 1;
    }
    n
}

/// How many of the lengths give an entry a code too long for the fast table.
fn count_long_codes(lengths: &Vec<u8>) -> (r: i32)
    requires
        lengths@.len() < 0x7fff_ffff,
    ensures
        r == count_long(lengths@, lengths@.len() as int),
        0 <= r <= lengths@.len(),
{
    let mut n: i32 = 0;
    let mut i: usize = 0;
    while i < lengths.len()
        invariant
            i <= lengths@.len() < 0x7fff_ffff,
            n == count_long(lengths@, i as int),
            0 <= n <= i,
        decreases lengths@.len() - i,
    {
        if lengths[i] != NO_CODE && lengths[i] > 10 {
            n = n + 1;
        }
        i = i + 1;
    }
    n
}

/// A code that fits in its width starts where no other disjoint code does.
proof fn lemma_disjoint_distinct(s1: int, l1: int, s2: int, l2: int)
    requires
        code_ok(s1, l1),
        codes_disjoint(s1, l1, s2, l2),
        code_ok(s2, l2),
    ensures
        s1 != s2,
{
    vstd::arithmetic::power2::lemma_pow2_pos((32 - l1) as nat);
    vstd::arithmetic::power2::lemma_pow2_pos((32 - l2) as nat);
}

/// The codes of a dense codebook whose reversed codes are proper and
/// pairwise disjoint are, first bit lowest, prefix-free.
proof fn lemma_dense_prefix_free(c: Codebook)
    requires
        !c.sparse,
        c.codewords@.len() == c.entries,
        c.codeword_lengths@.len() == c.entries,
        forall|s: int| 0 <= s < c.entries && c.codeword_lengths@[s] != NO_CODE
            ==> code_ok(reverse32(#[trigger] c.codewords@[s]) as int, c.codeword_lengths@[s] as int),
        forall|s1: int, s2: int| 0 <= s1 < c.entries && 0 <= s2 < c.entries && s1 != s2
            && c.codeword_lengths@[s1] != NO_CODE && c.codeword_lengths@[s2] != NO_CODE
            ==> codes_disjoint(reverse32(#[trigger] c.codewords@[s1]) as int, c.codeword_lengths@[s1] as int,
                reverse32(#[trigger] c.codewords@[s2]) as int, c.codeword_lengths@[s2] as int),
    ensures
        codes_prefix_free(c),
{
    assert forall|i: int| 0 <= i < c.entries && c.codeword_lengths@[i] != NO_CODE
        implies (#[trigger] c.codewords@[i] as int) < pow2(c.codeword_lengths@[i] as nat) by {
        lemma_code_fits(c.codewords@[i], c.codeword_lengths@[i] as int);
    }
    assert forall|i: int, j: int| 0 <= i < c.entries && 0 <= j < c.entries && i != j
        && c.codeword_lengths@[i] != NO_CODE && c.codeword_lengths@[j] != NO_CODE
        && c.codeword_lengths@[i] <= c.codeword_lengths@[j]
        implies !code_begins(#[trigger] c.codewords@[j] as int, #[trigger] c.codewords@[i] as int,
            c.codeword_lengths@[i] as int) by {
        lemma_disjoint_not_prefix(c.codewords@[i], c.codeword_lengths@[i] as int, c.codewords@[j], c.codeword_lengths@[j] as int);
    }
}

/// The sorted table that `compute_sorted_huffman` builds for a dense
/// codebook holds each long entry and nothing else.
proof fn lemma_dense_sorted(cb: Codebook, c: Codebook, lengths: Seq<u8>, values: Seq<u32>, cl: Seq<u8>)
    requires
        !cb.sparse,
        c.entries == cb.entries,
        c.codewords == cb.codewords,
        c.codeword_lengths@ == lengths,
        c.sorted_entries == cb.sorted_entries,
        forall|y: int| 0 <= y < cb.sorted_entries ==> #[trigger] sorted_entry(cb, lengths, values,
            sort_count(cb), c.sorted_codewords@, c.sorted_values@, cl, y),
        forall|i: int| 0 <= i < sort_count(cb) && #[trigger] entry_sorted(cb, lengths, values, i)
            ==> placed(c.sorted_codewords@, c.sorted_values@, cl, cb, lengths, values, i),
    ensures
        forall|y: int| 0 <= y < c.sorted_entries ==> {
            let e = #[trigger] c.sorted_values@[y] as int;
            &&& 0 <= e < c.entries
            &&& c.codeword_lengths@[e] != NO_CODE
            &&& c.codeword_lengths@[e] > 10
            &&& c.sorted_codewords@[y] == reverse32(c.codewords@[e])
        },
        forall|i: int| 0 <= i < c.entries && c.codeword_lengths@[i] != NO_CODE && c.codeword_lengths@[i] > 10
            ==> #[trigger] long_entry_sorted(c, i),
{
    assert forall|y: int| 0 <= y < c.sorted_entries implies ({
        let e = #[trigger] c.sorted_values@[y] as int;
        &&& 0 <= e < c.entries
        &&& c.codeword_lengths@[e] != NO_CODE
        &&& c.codeword_lengths@[e] > 10
        &&& c.sorted_codewords@[y] == reverse32(c.codewords@[e])
    }) by {
        assert(sorted_entry(cb, lengths, values, sort_count(cb), c.sorted_codewords@, c.sorted_values@, cl, y));
    }
    assert forall|i: int| 0 <= i < c.entries && c.codeword_lengths@[i] != NO_CODE && c.codeword_lengths@[i] > 10
        implies #[trigger] long_entry_sorted(c, i) by {
        assert(entry_sorted(cb, lengths, values, i));
        assert(placed(c.sorted_codewords@, c.sorted_values@, cl, cb, lengths, values, i));
    }
}

/// The tables of a sparse codebook: each position of the sorted table holds
/// the reversed code and the length of one used entry, in strictly
/// increasing order, so the codes they give are prefix-free and each has a
/// length.
proof fn lemma_sparse_tables(cb: Codebook, c: Codebook, lengths: Seq<u8>, values: Seq<u32>)
    requires
        cb.sparse,
        c.sparse,
        c.sorted_entries == cb.sorted_entries,
        c.codeword_lengths@.len() == c.sorted_entries,
        forall|y: int| 0 <= y < cb.sorted_entries ==> #[trigger] sorted_entry(cb, lengths, values,
            sort_count(cb), c.sorted_codewords@, c.sorted_values@, c.codeword_lengths@, y),
        forall|t: int| 0 <= t < cb.sorted_entries
            ==> code_ok(reverse32(#[trigger] cb.codewords@[t]) as int, lengths[values[t] as int] as int),
        forall|t1: int, t2: int| 0 <= t1 < cb.sorted_entries && 0 <= t2 < cb.sorted_entries && t1 != t2
            ==> codes_disjoint(reverse32(#[trigger] cb.codewords@[t1]) as int, lengths[values[t1] as int] as int,
                reverse32(#[trigger] cb.codewords@[t2]) as int, lengths[values[t2] as int] as int),
        forall|a: int, b: int| 0 <= a < b < c.sorted_entries
            ==> #[trigger] c.sorted_codewords@[a] < #[trigger] c.sorted_codewords@[b],
    ensures
        codes_prefix_free(c),
        forall|y: int| 0 <= y < c.sorted_entries ==> #[trigger] c.codeword_lengths@[y] != NO_CODE,
{
    let n = cb.sorted_entries as int;
    let sc = c.sorted_codewords@;
    let cl = c.codeword_lengths@;
    assert forall|y: int| 0 <= y < n implies {
        let j = #[trigger] sparse_source(cb, lengths, values, sc, c.sorted_values@, cl, y);
        &&& 0 <= j < n
        &&& entry_code(c, y) == cb.codewords@[j]
        &&& sc[y] == reverse32(cb.codewords@[j])
        &&& cl[y] == lengths[values[j] as int]
        &&& code_ok(reverse32(cb.codewords@[j]) as int, cl[y] as int)
    } by {
        assert(sorted_entry(cb, lengths, values, sort_count(cb), sc, c.sorted_values@, cl, y));
        let j = sparse_source(cb, lengths, values, sc, c.sorted_values@, cl, y);
        crate::bits::lemma_bit_reverse_involution(cb.codewords@[j]);
    }
    assert forall|y: int| 0 <= y < c.sorted_entries implies #[trigger] cl[y] != NO_CODE by {
        let j = sparse_source(cb, lengths, values, sc, c.sorted_values@, cl, y);
    }
    assert forall|i: int| 0 <= i < decode_range(c) && cl[i] != NO_CODE
        implies (#[trigger] entry_code(c, i) as int) < pow2(cl[i] as nat) by {
        let j = sparse_source(cb, lengths, values, sc, c.sorted_values@, cl, i);
        lemma_code_fits(cb.codewords@[j], cl[i] as int);
    }
    assert forall|i: int, k: int| 0 <= i < decode_range(c) && 0 <= k < decode_range(c) && i != k
        && cl[i] != NO_CODE && cl[k] != NO_CODE && cl[i] <= cl[k]
        implies !code_begins(#[trigger] entry_code(c, k) as int, #[trigger] entry_code(c, i) as int, cl[i] as int) by {
        let ji = sparse_source(cb, lengths, values, sc, c.sorted_values@, cl, i);
        let jk = sparse_source(cb, lengths, values, sc, c.sorted_values@, cl, k);
        if i < k {
            assert(sc[i] < sc[k]);
        } else {
            assert(sc[k] < sc[i]);
        }
        assert(ji != jk);
        lemma_disjoint_not_prefix(cb.codewords@[ji], cl[i] as int, cb.codewords@[jk], cl[k] as int);
    }
}

/// The used entry whose code and length position `y` of a sparse
/// codebook's sorted table holds.
spec fn sparse_source(cb: Codebook, lengths: Seq<u8>, values: Seq<u32>, sc: Seq<u32>, sv: Seq<i32>, cl: Seq<u8>, y: int) -> int {
    choose|j: int| 0 <= j < sort_count(cb) && entry_sorted(cb, lengths, values, j) && sc[y] == reverse32(cb.codewords@[j])
        && sv[y] == crate::huffman::sorted_symbol(cb, values, j) && (cb.sparse ==> cl[y] == lengths[values[j] as int])
}

// A codebook in its bits `p`, first bit lowest: the bytes 0x42, 0x43,
// 0x56; 16 bits of dimensions; 24 bits of entries; an ordered flag; when
// not ordered, a sparse flag; the code lengths (see `codebook_lengths`);
// then its lookup table.

/// The codebook in the bits `p` has ordered code lengths.
pub open spec fn cb_ordered(p: int) -> bool {
    bit_field(p, 64, 1) != 0
}

/// The codebook in the bits `p` is marked sparse.
pub open spec fn cb_sparse_flag(p: int) -> bool {
    !cb_ordered(p) && bit_field(p, 65, 1) != 0
}

/// The code lengths of the codebook in the bits `p`, and where they end.
pub open spec fn cb_lengths(p: int) -> (Option<Seq<u8>>, int) {
    codebook_lengths(p, if cb_ordered(p) { 65 } else { 66 }, bit_field(p, 40, 24), cb_ordered(p), cb_sparse_flag(p))
}

/// The header and code lengths in the bits `p` are ones that setup accepts:
/// the sync bytes, dimensions for any entries, and valid lengths.
pub open spec fn cb_header_ok(p: int) -> bool {
    &&& bit_field(p, 0, 8) == 0x42
    &&& bit_field(p, 8, 8) == 0x43
    &&& bit_field(p, 16, 8) == 0x56
    &&& !(bit_field(p, 24, 16) == 0 && bit_field(p, 40, 24) != 0)
    &&& cb_lengths(p).0 is Some
}

/// `c` holds the dimensions, entries and code lengths in the bits `p`: a
/// dense codebook the lengths themselves, a sparse one the length of the
/// entry at each position of its sorted table; it is sparse when marked so
/// and fewer than a quarter of its entries have codes.
pub open spec fn cb_read(c: Codebook, p: int) -> bool {
    let l = cb_lengths(p).0->0;
    &&& c.dimensions == bit_field(p, 24, 16)
    &&& c.entries == bit_field(p, 40, 24)
    &&& c.sparse == (cb_sparse_flag(p) && count_used(l, l.len() as int) < c.entries / 4)
    &&& !c.sparse ==> c.codeword_lengths@ == l
    &&& c.sparse ==> forall|y: int| 0 <= y < c.sorted_entries ==> #[trigger] c.codeword_lengths@[y] == l[c.sorted_values@[y] as int]
}

/// The codebook in the bits `p` is kept sparse: marked so, with fewer than
/// a quarter of its entries given a code.
pub open spec fn cb_sparse(p: int) -> bool {
    let l = cb_lengths(p).0->0;
    cb_sparse_flag(p) && count_used(l, l.len() as int) < bit_field(p, 40, 24) / 4
}

/// Reads a codebook's sync bytes, dimensions, entries and flags.
fn read_codebook_header(f: &mut Vorbis, Ghost(p): Ghost<int>, Ghost(t): Ghost<int>) -> (r: Option<(i32, i32, bool, bool)>)
    requires
        old(f).wf(),
    ensures
        final(f).wf(),
        final(f).same_setup(&*old(f)),
        r is None ==> final(f).error == VorbisError::InvalidSetup,
        r matches Some((d, e, o, sp)) ==> 0 <= d < 0x1_0000 && 0 <= e < 0x100_0000 && !(d == 0 && e != 0) && (o ==> !sp),
        reading_at(*old(f), p, 0, t) && 66 <= t ==> {
            &&& r is Some <==> (bit_field(p, 0, 8) == 0x42 && bit_field(p, 8, 8) == 0x43 && bit_field(p, 16, 8) == 0x56
                && !(bit_field(p, 24, 16) == 0 && bit_field(p, 40, 24) != 0))
            &&& r matches Some((d, e, o, sp)) ==> d == bit_field(p, 24, 16) && e == bit_field(p, 40, 24)
                && o == cb_ordered(p) && sp == cb_sparse_flag(p)
                && reading_at(*final(f), p, if o { 65int } else { 66int }, t)
        },
{
    proof {
        vstd::arithmetic::power2::lemma2_to64();
        if reading_at(*f, p, 0, t) {
            crate::ogg::lemma_field_split(p, 24, 8, 8);
            crate::ogg::lemma_field_split(p, 40, 8, 16);
            crate::ogg::lemma_field_split(p, 48, 8, 8);
        }
    }
    if get_field(f, 8, Ghost(p), Ghost(0), Ghost(t)) != 0x42 {
        error(f, VorbisError::InvalidSetup);
        return None;
    }
    if get_field(f, 8, Ghost(p), Ghost(8), Ghost(t)) != 0x43 {
        error(f, VorbisError::InvalidSetup);
        return None;
    }
    if get_field(f, 8, Ghost(p), Ghost(16), Ghost(t)) != 0x56 {
        error(f, VorbisError::InvalidSetup);
        return None;
    }
    let d0 = get_field(f, 8, Ghost(p), Ghost(24), Ghost(t));
    let d1 = get_field(f, 8, Ghost(p), Ghost(32), Ghost(t));
    let dimensions = (d1 * 256 + d0) as i32;
    let e0 = get_field(f, 8, Ghost(p), Ghost(40), Ghost(t));
    let e1 = get_field(f, 8, Ghost(p), Ghost(48), Ghost(t));
    let e2 = get_field(f, 8, Ghost(p), Ghost(56), Ghost(t));
    let entries = (e2 * 65536 + e1 * 256 + e0) as i32;
    let ordered = get_field(f, 1, Ghost(p), Ghost(64), Ghost(t)) != 0;
    let mut sparse = false;
    if !ordered {
        sparse = get_field(f, 1, Ghost(p), Ghost(65), Ghost(t)) != 0;
    }
    if dimensions == 0 && entries != 0 {
        error(f, VorbisError::InvalidSetup);
        return None;
    }
    Some((dimensions, entries, ordered, sparse))
}

/// Reads a codebook's header, code lengths and Huffman code, and builds
/// its decoding tables; the lookup table comes after.
fn read_codebook_codes(f: &mut Vorbis) -> (r: Option<Codebook>)
    requires
        old(f).wf(),
    ensures
        final(f).wf(),
        final(f).same_setup(&*old(f)),
        r is Some ==> codebook_ok(r->0),
        r is Some ==> (r->0.entries > 0 ==> r->0.dimensions > 0),
        r is Some ==> r->0.lookup_type == 0 && r->0.multiplicands@.len() == 0,
        r is Some ==> (r->0.sorted_entries > 0 ==> r->0.sorted_values@.len() == r->0.sorted_entries),
        r is Some ==> codes_prefix_free(r->0) && fast_table_ok(r->0) && sorted_table_ok(r->0),
        r is Some ==> codes_canonical(r->0),
        r is None ==> final(f).error == VorbisError::InvalidSetup,
        0 <= old(f).valid_bits && 66 <= bits_in_page(*old(f)) && cb_lengths(page_bits(*old(f))).1 <= bits_in_page(*old(f)) ==> {
            let p = page_bits(*old(f));
            &&& !cb_header_ok(p) ==> r is None
            &&& r matches Some(c) ==> cb_header_ok(p) && cb_read(c, p)
                && reading_at(*final(f), p, cb_lengths(p).1, bits_in_page(*old(f)))
            &&& cb_header_ok(p) && !cb_sparse(p) && dense_assignable(cb_lengths(p).0->0) ==> r is Some
        },
{
    proof { vstd::arithmetic::power2::lemma2_to64(); }
    let ghost p = page_bits(*f);
    let ghost t = bits_in_page(*f);
    proof {
        lemma_page_bits_nonneg(*f);
        assert(p / pow2(0) as int == p);
    }
    let (dimensions, entries, ordered, mut sparse) = match read_codebook_header(f, Ghost(p), Ghost(t)) {
        None => { return None; },
        Some(h) => h,
    };
    let ghost lpos: int = if ordered { 65int } else { 66int };
    let lengths = match read_codeword_lengths(f, entries, ordered, sparse, Ghost(p), Ghost(lpos), Ghost(t)) {
        None => { return None; },
        Some(l) => l,
    };
    let total = count_present(&lengths);
    if sparse && total >= entries / 4 {
        sparse = false;
    }
    let sorted_count = if sparse { total } else { count_long_codes(&lengths) };
    let mut c = Codebook::new();
    c.dimensions = dimensions;
    c.entries = entries;
    c.sparse = sparse;
    c.sorted_entries = sorted_count;
    let mut values: Vec<u32> = Vec::new();
    if !sparse {
        c.codewords = filled(0u32, entries as usize);
    } else if sorted_count != 0 {
        c.codeword_lengths = filled(0u8, sorted_count as usize);
        c.codewords = filled(0u32, sorted_count as usize);
        values = filled(0u32, sorted_count as usize);
    }
    let ghost c_in = c;
    if !compute_codewords(&mut c, lengths.as_slice(), &mut values) {
        proof {
            if !sparse && dense_assignable(lengths@) {
                let s = choose|s: int| #[trigger] dense_code_fails_at(c.codewords@, lengths@, s);
                lemma_assignable_never_fails(c.codewords@, lengths@, s);
            }
        }
        error(f, VorbisError::InvalidSetup);
        return None;
    }
    let ghost c1 = c;
    let ghost n_sorted: int = if sparse { sorted_count as int } else { entries as int };
    proof {
        assert forall|i: int, j: int| 0 <= i < j < n_sorted
            && entry_sorted(c1, lengths@, values@, i) && entry_sorted(c1, lengths@, values@, j)
            implies #[trigger] c1.codewords@[i] != #[trigger] c1.codewords@[j] by {
            if !sparse {
                lemma_disjoint_distinct(reverse32(c1.codewords@[i]) as int, lengths@[i] as int,
                    reverse32(c1.codewords@[j]) as int, lengths@[j] as int);
            } else {
                lemma_disjoint_distinct(reverse32(c1.codewords@[i]) as int, c1.codeword_lengths@[i] as int,
                    reverse32(c1.codewords@[j]) as int, c1.codeword_lengths@[j] as int);
            }
        }
        if sparse {
            assert forall|i: int| 0 <= i < sorted_count implies #[trigger] values@[i] < lengths@.len()
                && lengths@[values@[i] as int] != NO_CODE by {
                assert(code_ok(reverse32(c1.codewords@[i]) as int, c1.codeword_lengths@[i] as int));
            }
        }
    }
    let ghost mut cb = c;
    if sorted_count != 0 {
        c.sorted_codewords = filled(0u32, (sorted_count + 1) as usize);
        c.sorted_values = filled(0i32, sorted_count as usize);
        proof { cb = c; }
        compute_sorted_huffman(&mut c, lengths.as_slice(), values.as_slice());
    }
    let ghost c2 = c;
    if sparse {
        c.codewords = Vec::new();
    } else {
        c.codeword_lengths = lengths;
    }
    let ghost c3 = c;
    compute_accelerated_huffman(&mut c);
    proof {
        assert forall|t: int| 0 <= t < 1024 implies #[trigger] c.fast_huffman@[t] == -1
            || (0 <= c.fast_huffman@[t] < c.codeword_lengths@.len() && c.codeword_lengths@[c.fast_huffman@[t] as int] <= 10) by {
            assert(fast_entry_ok(c3, c.fast_huffman@, t, fast_limit(c3)));
            if c.fast_huffman@[t] != -1 {
                assert(fast_match(c3, c.fast_huffman@[t] as int, t));
            }
        }
        assert forall|i: int| 0 <= i < c.codeword_lengths@.len() implies #[trigger] c.codeword_lengths@[i] == NO_CODE
            || 1 <= c.codeword_lengths@[i] <= 31 by {
            if !sparse {
                if c.codeword_lengths@[i] != NO_CODE {
                    assert(code_ok(reverse32(c1.codewords@[i]) as int, lengths@[i] as int));
                }
            } else {
                if c2.codeword_lengths@[i] != c1.codeword_lengths@[i] {
                    let k = choose|k: int| 0 <= k < sorted_count && c2.codeword_lengths@[i] == lengths@[values@[k] as int];
                    assert(code_ok(reverse32(c1.codewords@[k]) as int, c1.codeword_lengths@[k] as int));
                } else {
                    assert(code_ok(reverse32(c1.codewords@[i]) as int, c1.codeword_lengths@[i] as int));
                }
            }
        }
        assert forall|x: int| 0 <= x < c.sorted_values@.len() implies 0 <= #[trigger] c.sorted_values@[x] < c.entries by {
            if c.sorted_values@[x] != 0 {
                let k = choose|k: int| 0 <= k < n_sorted && entry_sorted(c1, lengths@, values@, k)
                    && c2.sorted_values@[x] == crate::huffman::sorted_symbol(c1, values@, k);
            }
        }
        assert forall|t: int| 0 <= t < 1024 implies #[trigger] fast_entry_ok(c, c.fast_huffman@, t, fast_limit(c)) by {
            assert(fast_entry_ok(c3, c.fast_huffman@, t, fast_limit(c3)));
            assert forall|i: int| #[trigger] fast_match(c, i, t) == fast_match(c3, i, t) by {}
        }
        if !sparse {
            assert(c.codewords@ == c1.codewords@);
            assert(c.codeword_lengths@ == lengths@);
            lemma_dense_prefix_free(c);
            if sorted_count != 0 {
                lemma_dense_sorted(cb, c, lengths@, values@, c2.codeword_lengths@);
            } else {
                lemma_count_long_zero(lengths@, entries as int);
            }
        } else if sorted_count != 0 {
            assert(cb.codewords == c1.codewords);
            lemma_sparse_tables(cb, c, lengths@, values@);
            assert forall|t: int| 0 <= t < cb.sorted_entries implies #[trigger] cb.codeword_lengths@[t] != NO_CODE by {
                assert(values@[t] < lengths@.len() && lengths@[values@[t] as int] != NO_CODE);
            }
            lemma_sparse_canonical(cb, c, lengths@, values@);
            assert forall|y: int| 0 <= y < c.sorted_entries implies #[trigger] c.codeword_lengths@[y]
                == lengths@[c.sorted_values@[y] as int] by {
                assert(sorted_entry(cb, lengths@, values@, sort_count(cb), c.sorted_codewords@, c.sorted_values@,
                    c.codeword_lengths@, y));
                let j = sparse_source(cb, lengths@, values@, c.sorted_codewords@, c.sorted_values@, c.codeword_lengths@, y);
            }
        }
    }
    Some(c)
}

/// A codebook ready for decoding: consistent Huffman tables that give back
/// every code (prefix-free codes, a sound fast table and sorted table)
/// and, when it has a lookup table, a multiplicand for each dimension of each entry a
/// decode can give, each of `value_bits` bits.
pub open spec fn codebook_setup_ok(c: Codebook) -> bool {
    &&& codebook_ok(c)
    &&& codes_prefix_free(c) && fast_table_ok(c) && sorted_table_ok(c)
    &&& codes_canonical(c)
    &&& c.entries > 0 ==> c.dimensions > 0
    &&& c.lookup_type >= 1 ==> c.dimensions > 0
    &&& c.lookup_type == 0 ==> c.multiplicands@.len() == 0
    &&& c.lookup_type == 1 ==> c.sparse && c.sorted_entries == 0 && c.multiplicands@.len() == 0
    &&& c.lookup_type >= 1 ==> 1 <= c.value_bits <= 16 && c.sequence_p <= 1 && c.lookup_values >= 1
    &&& c.lookup_type == 2 ==> c.multiplicands@.len() >= decode_range(c) * c.dimensions
    &&& forall|i: int| 0 <= i < c.multiplicands@.len() ==> (#[trigger] c.multiplicands@[i] as int) < pow2(c.value_bits as nat)
}

/// Each entry of a codebook has the code the Vorbis format assigns it:
/// the lowest of its length that is free after the codes of the entries
/// before it (for a sparse codebook, read from its sorted table).
pub open spec fn codes_canonical(c: Codebook) -> bool {
    &&& !c.sparse ==> forall|s: int| 0 <= s < c.entries && c.codeword_lengths@[s] != NO_CODE
        ==> #[trigger] lowest_code(c.codewords@, c.codeword_lengths@, s)
    &&& c.sparse ==> forall|y: int| 0 <= y < c.sorted_entries ==> #[trigger] sparse_lowest(c, y)
}

/// Which codes a codebook assigns does not depend on its lookup table.
proof fn lemma_canonical_kept(c0: Codebook, c1: Codebook)
    requires
        c1.codewords == c0.codewords,
        c1.codeword_lengths == c0.codeword_lengths,
        c1.sparse == c0.sparse,
        c1.sorted_codewords == c0.sorted_codewords,
        c1.entries == c0.entries,
        c1.sorted_entries == c0.sorted_entries,
        c1.sorted_values == c0.sorted_values,
    ensures
        codes_canonical(c0) ==> codes_canonical(c1),
{
    if codes_canonical(c0) && c0.sparse {
        assert forall|y: int| 0 <= y < c1.sorted_entries implies #[trigger] sparse_lowest(c1, y) by {
            assert(sparse_lowest(c0, y));
            assert forall|v: int, x: int, l: int| #[trigger] sparse_free_before(c1, v, x, l) == sparse_free_before(c0, v, x, l) by {}
        }
    }
}

/// In a sparse codebook, the code `x` of `l` bits (first bit on top) is
/// free after the codes of the entries below `v`, read from its sorted
/// table (which holds them with the first bit on top).
pub open spec fn sparse_free_before(c: Codebook, v: int, x: int, l: int) -> bool {
    &&& code_ok(x, l)
    &&& forall|y: int| 0 <= y < c.sorted_entries && c.sorted_values@[y] < v
        ==> codes_disjoint(x, l, #[trigger] c.sorted_codewords@[y] as int, c.codeword_lengths@[y] as int)
}

/// Position `y` of a sparse codebook's sorted table holds the code the
/// Vorbis format assigns its entry: the lowest of its length that is free
/// after the codes of the entries below it.
pub open spec fn sparse_lowest(c: Codebook, y: int) -> bool {
    let v = c.sorted_values@[y] as int;
    let l = c.codeword_lengths@[y] as int;
    let st = c.sorted_codewords@[y] as int;
    &&& sparse_free_before(c, v, st, l)
    &&& forall|x: int| 0 <= x < st ==> !#[trigger] sparse_free_before(c, v, x, l)
}

/// For one code: being free after the entries below the symbol of used
/// entry `j` in the sorted table is being free after the codes assigned
/// before `j`.
proof fn lemma_sparse_free_one(cb: Codebook, c: Codebook, lengths: Seq<u8>, values: Seq<u32>, j: int, x: int, l: int)
    requires
        cb.sparse,
        c.sorted_entries == cb.sorted_entries,
        0 <= j < cb.sorted_entries,
        forall|y: int| 0 <= y < cb.sorted_entries ==> #[trigger] sorted_entry(cb, lengths, values,
            sort_count(cb), c.sorted_codewords@, c.sorted_values@, c.codeword_lengths@, y),
        forall|i: int| 0 <= i < sort_count(cb) && #[trigger] entry_sorted(cb, lengths, values, i)
            ==> placed(c.sorted_codewords@, c.sorted_values@, c.codeword_lengths@, cb, lengths, values, i),
        forall|t: int| 0 <= t < cb.sorted_entries ==> #[trigger] cb.codeword_lengths@[t] == lengths[values[t] as int],
        forall|t: int| 0 <= t < cb.sorted_entries ==> #[trigger] cb.codeword_lengths@[t] != NO_CODE,
        forall|t1: int, t2: int| 0 <= t1 < t2 < cb.sorted_entries ==> #[trigger] values[t1] < #[trigger] values[t2],
    ensures
        sparse_free_before(c, values[j] as int, x, l) == code_free_after(cb.codewords@, cb.codeword_lengths@, j, x, l),
{
    if sparse_free_before(c, values[j] as int, x, l) {
        assert forall|i: int| 0 <= i < j && cb.codeword_lengths@[i] != NO_CODE
            implies codes_disjoint(x, l, reverse32(#[trigger] cb.codewords@[i]) as int, cb.codeword_lengths@[i] as int) by {
            assert(entry_sorted(cb, lengths, values, i));
            assert(placed(c.sorted_codewords@, c.sorted_values@, c.codeword_lengths@, cb, lengths, values, i));
            let y = choose|y: int| 0 <= y < cb.sorted_entries && c.sorted_codewords@[y] == reverse32(cb.codewords@[i])
                && c.sorted_values@[y] == crate::huffman::sorted_symbol(cb, values, i)
                && (cb.sparse ==> c.codeword_lengths@[y] == lengths[values[i] as int]);
            assert(values[i] < values[j]);
            assert(codes_disjoint(x, l, c.sorted_codewords@[y] as int, c.codeword_lengths@[y] as int));
        }
    }
    if code_free_after(cb.codewords@, cb.codeword_lengths@, j, x, l) {
        assert forall|y: int| 0 <= y < c.sorted_entries && c.sorted_values@[y] < values[j] as int
            implies codes_disjoint(x, l, #[trigger] c.sorted_codewords@[y] as int, c.codeword_lengths@[y] as int) by {
            assert(sorted_entry(cb, lengths, values, sort_count(cb), c.sorted_codewords@, c.sorted_values@, c.codeword_lengths@, y));
            let i = sparse_source(cb, lengths, values, c.sorted_codewords@, c.sorted_values@, c.codeword_lengths@, y);
            if i >= j {
                if i > j {
                    assert(values[j] < values[i]);
                }
            }
            assert(i < j);
            assert(codes_disjoint(x, l, reverse32(cb.codewords@[i]) as int, cb.codeword_lengths@[i] as int));
        }
    }
}

/// The sorted table of a sparse codebook holds, at each position, the
/// code the Vorbis format assigns its entry.
proof fn lemma_sparse_canonical(cb: Codebook, c: Codebook, lengths: Seq<u8>, values: Seq<u32>)
    requires
        cb.sparse,
        c.sparse,
        c.sorted_entries == cb.sorted_entries,
        forall|y: int| 0 <= y < cb.sorted_entries ==> #[trigger] sorted_entry(cb, lengths, values,
            sort_count(cb), c.sorted_codewords@, c.sorted_values@, c.codeword_lengths@, y),
        forall|i: int| 0 <= i < sort_count(cb) && #[trigger] entry_sorted(cb, lengths, values, i)
            ==> placed(c.sorted_codewords@, c.sorted_values@, c.codeword_lengths@, cb, lengths, values, i),
        forall|t: int| 0 <= t < cb.sorted_entries ==> #[trigger] cb.codeword_lengths@[t] == lengths[values[t] as int],
        forall|t: int| 0 <= t < cb.sorted_entries ==> #[trigger] cb.codeword_lengths@[t] != NO_CODE,
        forall|t1: int, t2: int| 0 <= t1 < t2 < cb.sorted_entries ==> #[trigger] values[t1] < #[trigger] values[t2],
        forall|t: int| 0 <= t < cb.sorted_entries ==> #[trigger] lowest_code(cb.codewords@, cb.codeword_lengths@, t),
    ensures
        forall|y: int| 0 <= y < c.sorted_entries ==> #[trigger] sparse_lowest(c, y),
{
    assert forall|y: int| 0 <= y < c.sorted_entries implies #[trigger] sparse_lowest(c, y) by {
        assert(sorted_entry(cb, lengths, values, sort_count(cb), c.sorted_codewords@, c.sorted_values@, c.codeword_lengths@, y));
        let j = sparse_source(cb, lengths, values, c.sorted_codewords@, c.sorted_values@, c.codeword_lengths@, y);
        let cw = cb.codewords@;
        let cl = cb.codeword_lengths@;
        assert(lowest_code(cw, cl, j));
        assert(c.sorted_codewords@[y] == reverse32(cw[j]));
        assert(c.codeword_lengths@[y] == cl[j]);
        assert(c.sorted_values@[y] == values[j] as int);
        lemma_sparse_free_one(cb, c, lengths, values, j, reverse32(cw[j]) as int, cl[j] as int);
        assert forall|x: int| 0 <= x < c.sorted_codewords@[y] as int
            implies !#[trigger] sparse_free_before(c, c.sorted_values@[y] as int, x, c.codeword_lengths@[y] as int) by {
            lemma_sparse_free_one(cb, c, lengths, values, j, x, cl[j] as int);
        }
    }
}

/// A codebook that setup accepts gives back every code it holds: whenever
/// the bits ahead begin with the code of entry `s` (of position `s` of the
/// sorted table, when sparse), a decode with it gives `s`. The exceptions:
/// a short code of a dense codebook at an entry past 32766, which the fast
/// table cannot name, and a code of more than 25 bits that the pending bits
/// do not yet hold whole.
pub proof fn lemma_setup_codebook_decodes(c: Codebook, f: Vorbis, s: int)
    requires
        codebook_setup_ok(c),
        0 <= s < decode_range(c),
        c.codeword_lengths@[s] != NO_CODE,
        !c.sparse && c.codeword_lengths@[s] <= 10 ==> s < 32767,
        bits_begin_with(f, entry_code(c, s) as int, c.codeword_lengths@[s] as int),
    ensures
        code_pending(f, c, s),
{
}

/// Reads `count` values of `bits` bits each.
fn read_multiplicands(f: &mut Vorbis, count: u32, bits: u8, Ghost(p): Ghost<int>, Ghost(q): Ghost<int>,
    Ghost(t): Ghost<int>) -> (r: Vec<u16>)
    requires
        old(f).wf(),
        1 <= bits <= 16,
    ensures
        final(f).wf(),
        final(f).same_setup(&*old(f)),
        r@.len() == count,
        forall|i: int| 0 <= i < count ==> (#[trigger] r@[i] as int) < pow2(bits as nat),
        reading_at(*old(f), p, q, t) && q + bits * count <= t ==>
            forall|i: int| 0 <= i < count ==> #[trigger] r@[i] == bit_field(p, (q + bits * i) as nat, bits as nat),
{
    let ghost exact = reading_at(*f, p, q, t) && q + bits * count <= t;
    let ghost mut pos: int = q;
    let mut out: Vec<u16> = Vec::new();
    let mut i: u32 = 0;
    while i < count
        invariant
            f.wf(),
            f.same_setup(&*old(f)),
            1 <= bits <= 16,
            i <= count,
            out@.len() == i,
            forall|k: int| 0 <= k < i ==> (#[trigger] out@[k] as int) < pow2(bits as nat),
            exact == (reading_at(*old(f), p, q, t) && q + bits * count <= t),
            exact ==> pos == q + bits * i && reading_at(*f, p, pos, t),
            exact ==> forall|k: int| 0 <= k < i ==> #[trigger] out@[k] == bit_field(p, (q + bits * k) as nat, bits as nat),
        decreases count - i,
    {
        proof {
            assert(bits * (i + 1) == bits * i + bits) by (nonlinear_arith);
            assert(bits * (i + 1) <= bits * count) by (nonlinear_arith) requires i + 1 <= count, bits >= 1;
        }
        let v = get_field(f, bits as i32, Ghost(p), Ghost(pos), Ghost(t));
        proof {
            pos = pos + bits;
            vstd::arithmetic::power2::lemma2_to64();
            if bits < 16 {
                vstd::arithmetic::power2::lemma_pow2_strictly_increases(bits as nat, 16);
            }
        }
        out.push(v as u16);
        i = i + 1;
    }
    out
}

/// The multiplicand `k` of a lookup table at bit `q` of the bits `p`.
pub open spec fn cb_mult(p: int, q: int, k: int) -> int {
    let vb = bit_field(p, (q + 68) as nat, 4) + 1;
    bit_field(p, (q + 73 + vb * k) as nat, vb as nat)
}

/// Where a lookup table at bit `q` of the bits `p` with `lv` values ends.
pub open spec fn cb_lookup_end(p: int, q: int, lv: int) -> int {
    q + 73 + (bit_field(p, (q + 68) as nat, 4) + 1) * lv
}

/// `c` holds the lookup table at bit `q` of the bits `p`, as far as the
/// page holds it (up to bit `t`): its type (a type-1 table, once expanded,
/// is kept as type 2), the encodings of its minimum and delta, its value
/// bits and sequence flag, and its multiplicands (expanded, for type 1,
/// one per dimension of each entry a decode can give).
pub open spec fn cb_lookup_read(c: Codebook, p: int, q: int, t: int) -> bool {
    let lt = bit_field(p, q as nat, 4);
    &&& q + 4 <= t ==> lt <= 2 && (c.lookup_type == 0 <==> lt == 0) && (lt == 2 ==> c.lookup_type == 2)
    &&& q + 73 <= t && lt >= 1 ==> {
        &&& c.minimum_value_bits == bit_field(p, (q + 4) as nat, 32)
        &&& c.delta_value_bits == bit_field(p, (q + 36) as nat, 32)
        &&& c.value_bits == bit_field(p, (q + 68) as nat, 4) + 1
        &&& c.sequence_p == bit_field(p, (q + 72) as nat, 1)
    }
    &&& q + 73 <= t && lt == 2 && cb_lookup_end(p, q, c.lookup_values as int) <= t
        ==> forall|k: int| 0 <= k < c.lookup_values ==> #[trigger] c.multiplicands@[k] == cb_mult(p, q, k)
    &&& q + 73 <= t && lt == 1 && c.multiplicands@.len() > 0 && cb_lookup_end(p, q, c.lookup_values as int) <= t
        ==> forall|i: int| 0 <= i < c.multiplicands@.len() ==> #[trigger] c.multiplicands@[i]
            == cb_mult(p, q, lookup1_digit(lookup_symbol(c.sparse, c.sorted_values@, i / c.dimensions as int),
                c.lookup_values as int, i % c.dimensions as int))
}

/// Reads a codebook's lookup table: its type, the encodings of the minimum
/// and delta values, and the multiplicands; a type-1 table is expanded to
/// one multiplicand per dimension of each entry (and becomes type 2).
fn read_codebook_lookup(f: &mut Vorbis, c: &mut Codebook, Ghost(p): Ghost<int>, Ghost(q): Ghost<int>, Ghost(t): Ghost<int>) -> (r: bool)
    requires
        old(f).wf(),
        codebook_ok(*old(c)),
        old(c).entries > 0 ==> old(c).dimensions > 0,
        old(c).lookup_type == 0,
        old(c).multiplicands@.len() == 0,
        old(c).sorted_entries > 0 ==> old(c).sorted_values@.len() == old(c).sorted_entries,
        codes_prefix_free(*old(c)) && fast_table_ok(*old(c)) && sorted_table_ok(*old(c)),
        codes_canonical(*old(c)),
    ensures
        final(f).wf(),
        final(f).same_setup(&*old(f)),
        r ==> codebook_setup_ok(*final(c)),
        reading_at(*old(f), p, q, t) && q + 4 <= t ==> (bit_field(p, q as nat, 4) > 2 ==> !r)
            && (r ==> (final(c).lookup_type == 0 <==> bit_field(p, q as nat, 4) == 0))
            && (r && bit_field(p, q as nat, 4) == 2 ==> final(c).lookup_type == 2)
            && (bit_field(p, q as nat, 4) == 0 ==> r)
            && (bit_field(p, q as nat, 4) == 2 && 0 < old(c).entries * old(c).dimensions <= 0xffff_ffff ==> r),
        reading_at(*old(f), p, q, t) && q + 73 <= t && r && bit_field(p, q as nat, 4) >= 1 ==> {
            &&& final(c).minimum_value_bits == bit_field(p, (q + 4) as nat, 32)
            &&& final(c).delta_value_bits == bit_field(p, (q + 36) as nat, 32)
            &&& final(c).value_bits == bit_field(p, (q + 68) as nat, 4) + 1
            &&& final(c).sequence_p == bit_field(p, (q + 72) as nat, 1)
        },
        reading_at(*old(f), p, q, t) && q + 73 <= t && r && bit_field(p, q as nat, 4) == 2
            && cb_lookup_end(p, q, final(c).lookup_values as int) <= t
            ==> forall|k: int| 0 <= k < final(c).lookup_values ==> #[trigger] final(c).multiplicands@[k] == cb_mult(p, q, k),
        reading_at(*old(f), p, q, t) && q + 73 <= t && r && bit_field(p, q as nat, 4) == 1
            && final(c).multiplicands@.len() > 0 && cb_lookup_end(p, q, final(c).lookup_values as int) <= t
            ==> forall|i: int| 0 <= i < final(c).multiplicands@.len() ==> #[trigger] final(c).multiplicands@[i]
                == cb_mult(p, q, lookup1_digit(lookup_symbol(final(c).sparse, final(c).sorted_values@, i / final(c).dimensions as int),
                    final(c).lookup_values as int, i % final(c).dimensions as int)),
        !r ==> final(f).error == VorbisError::InvalidSetup,
        *final(c) == (Codebook { lookup_type: final(c).lookup_type, minimum_value_bits: final(c).minimum_value_bits,
            delta_value_bits: final(c).delta_value_bits, value_bits: final(c).value_bits, sequence_p: final(c).sequence_p,
            lookup_values: final(c).lookup_values, multiplicands: final(c).multiplicands, ..*old(c) }),
{
    proof { vstd::arithmetic::power2::lemma2_to64(); }
    let lt = get_field(f, 4, Ghost(p), Ghost(q), Ghost(t)) as u8;
    if lt > 2 {
        error(f, VorbisError::InvalidSetup);
        return false;
    }
    c.lookup_type = lt;
    if lt == 0 {
        proof { lemma_tables_kept(*old(c), *c); lemma_canonical_kept(*old(c), *c); }
        return true;
    }
    c.minimum_value_bits = get_field(f, 32, Ghost(p), Ghost(q + 4), Ghost(t));
    c.delta_value_bits = get_field(f, 32, Ghost(p), Ghost(q + 36), Ghost(t));
    let value_bits = (get_field(f, 4, Ghost(p), Ghost(q + 68), Ghost(t)) + 1) as u8;
    c.value_bits = value_bits;
    c.sequence_p = get_field(f, 1, Ghost(p), Ghost(q + 72), Ghost(t)) as u8;
    let lv: u32;
    if lt == 1 {
        lv = if c.dimensions == 0 { 0 } else { lookup1_values(c.entries, c.dimensions) as u32 };
    } else {
        assert(c.entries as u64 * c.dimensions as u64 <= 0x100_0000 * 0x1_0000) by (nonlinear_arith)
            requires 0 <= c.entries < 0x100_0000, 0 <= c.dimensions < 0x1_0000;
        let prod: u64 = c.entries as u64 * c.dimensions as u64;
        assert(prod > 0 ==> c.dimensions > 0) by (nonlinear_arith)
            requires prod == c.entries as u64 * c.dimensions as u64, c.dimensions >= 0;
        if prod > 0xffff_ffff {
            error(f, VorbisError::InvalidSetup);
            return false;
        }
        lv = prod as u32;
    }
    c.lookup_values = lv;
    if lv == 0 {
        error(f, VorbisError::InvalidSetup);
        return false;
    }
    let mults = read_multiplicands(f, lv, value_bits, Ghost(p), Ghost(q + 73), Ghost(t));
    if lt == 1 {
        if c.sparse && c.sorted_entries == 0 {
            proof { lemma_tables_kept(*old(c), *c); lemma_canonical_kept(*old(c), *c); }
            return true;
        }
        let n: i32 = if c.sparse { c.sorted_entries } else { c.entries };
        assert(n as u64 * c.dimensions as u64 <= 0x100_0000 * 0x1_0000) by (nonlinear_arith)
            requires 0 <= n < 0x100_0000, 0 <= c.dimensions < 0x1_0000;
        if (n as u64) * (c.dimensions as u64) > 0x7fff_ffff {
            error(f, VorbisError::InvalidSetup);
            return false;
        }
        proof {
            assert(c.sparse ==> forall|j: int| 0 <= j < n ==> #[trigger] c.sorted_values@[j] >= 0);
        }
        match expand_lookup1(&mults, lv, c.dimensions, n, c.sparse, &c.sorted_values) {
            None => {
                error(f, VorbisError::InvalidSetup);
                return false;
            },
            Some(m) => {
                proof {
                    assert forall|i: int| 0 <= i < m@.len() implies (#[trigger] m@[i] as int) < pow2(value_bits as nat) by {
                        let z = lookup1_digit(lookup_symbol(c.sparse, c.sorted_values@, i / c.dimensions as int),
                            lv as int, i % c.dimensions as int);
                        vstd::arithmetic::div_mod::lemma_mod_bound(
                            lookup_symbol(c.sparse, c.sorted_values@, i / c.dimensions as int)
                                / pow(lv as int, (i % c.dimensions as int) as nat), lv as int);
                        assert(0 <= z < lv);
                    }
                }
                c.multiplicands = m;
                c.lookup_type = 2;
            },
        }
    } else {
        proof {
            if c.sparse {
                vstd::arithmetic::mul::lemma_mul_inequality(c.sorted_entries as int, c.entries as int, c.dimensions as int);
            }
        }
        c.multiplicands = mults;
    }
    proof { lemma_tables_kept(*old(c), *c); lemma_canonical_kept(*old(c), *c); }
    true
}

/// Reads one codebook of the setup header.
pub fn parse_codebook(f: &mut Vorbis) -> (r: Option<Codebook>)
    requires
        old(f).wf(),
    ensures
        final(f).wf(),
        final(f).same_setup(&*old(f)),
        r is Some ==> codebook_setup_ok(r->0),
        r is None ==> final(f).error == VorbisError::InvalidSetup,
        0 <= old(f).valid_bits && 66 <= bits_in_page(*old(f)) && cb_lengths(page_bits(*old(f))).1 <= bits_in_page(*old(f)) ==> {
            let p = page_bits(*old(f));
            &&& !cb_header_ok(p) ==> r is None
            &&& cb_lengths(p).1 + 4 <= bits_in_page(*old(f)) && bit_field(p, cb_lengths(p).1 as nat, 4) > 2 ==> r is None
            &&& r matches Some(c) ==> cb_header_ok(p) && cb_read(c, p)
                && cb_lookup_read(c, p, cb_lengths(p).1, bits_in_page(*old(f)))
            &&& cb_header_ok(p) && !cb_sparse(p) && dense_assignable(cb_lengths(p).0->0)
                && cb_lengths(p).1 + 4 <= bits_in_page(*old(f))
                && (bit_field(p, cb_lengths(p).1 as nat, 4) == 0
                    || (bit_field(p, cb_lengths(p).1 as nat, 4) == 2
                        && 0 < bit_field(p, 40, 24) * bit_field(p, 24, 16) <= 0xffff_ffff))
                ==> r is Some
        },
{
    let mut c = match read_codebook_codes(f) {
        None => { return None; },
        Some(c) => c,
    };
    if !read_codebook_lookup(f, &mut c, Ghost(page_bits(*old(f))), Ghost(cb_lengths(page_bits(*old(f))).1),
        Ghost(bits_in_page(*old(f)))) {
        return None;
    }
    Some(c)
}

/// The order in which floor points are drawn: by x, and by position among
/// equal x (positions are below 256).
pub open spec fn floor_key(x: Seq<u16>, i: int) -> int {
    x[i] * 256 + i
}

/// `order` lists positions of `x` in strictly increasing order of x, and of
/// position among equal x.
pub open spec fn floor_sorted(x: Seq<u16>, order: Seq<u8>) -> bool {
    &&& forall|a: int| 0 <= a < order.len() ==> (#[trigger] order[a] as int) < x.len()
    &&& forall|a: int, b: int| 0 <= a < b < order.len()
        ==> floor_key(x, #[trigger] order[a] as int) < floor_key(x, #[trigger] order[b] as int)
}

/// `v` occurs in `order`.
pub open spec fn occurs(order: Seq<u8>, v: int) -> bool {
    exists|a: int| 0 <= a < order.len() && order[a] == v
}

/// The positions `0 .. x.len()` sorted by x (ties by position), by insertion.
pub fn floor_sort_order(x: &Vec<u16>) -> (r: Vec<u8>)
    requires
        x@.len() <= 256,
    ensures
        r@.len() == x@.len(),
        floor_sorted(x@, r@),
        forall|v: int| 0 <= v < x@.len() ==> #[trigger] occurs(r@, v),
{
    let mut out: Vec<u8> = Vec::new();
    let mut j: usize = 0;
    while j < x.len()
        invariant
            j <= x@.len() <= 256,
            out@.len() == j,
            forall|a: int| 0 <= a < out@.len() ==> (#[trigger] out@[a] as int) < j,
            floor_sorted(x@, out@),
            forall|v: int| 0 <= v < j ==> #[trigger] occurs(out@, v),
        decreases x@.len() - j,
    {
        let kj: u32 = x[j] as u32 * 256 + j as u32;
        let mut p: usize = 0;
        while p < out.len() && (x[out[p] as usize] as u32 * 256 + out[p] as u32) < kj
            invariant
                p <= out@.len(),
                j < x@.len() <= 256,
                kj == floor_key(x@, j as int),
                forall|a: int| 0 <= a < out@.len() ==> (#[trigger] out@[a] as int) < j,
                forall|a: int| 0 <= a < p ==> floor_key(x@, #[trigger] out@[a] as int) < kj,
            decreases out@.len() - p,
        {
            p = p + 1;
        }
        let ghost before = out@;
        proof {
            assert forall|a: int| p <= a < before.len() implies floor_key(x@, #[trigger] before[a] as int) > kj by {
                if a > p {
                    assert(floor_key(x@, before[p as int] as int) < floor_key(x@, before[a] as int));
                }
                assert(before[a] != j);
            }
        }
        out.insert(p, j as u8);
        proof {
            assert forall|v: int| 0 <= v < j + 1 implies #[trigger] occurs(out@, v) by {
                if v == j {
                    assert(out@[p as int] == j);
                } else {
                    assert(occurs(before, v));
                    let a = choose|a: int| 0 <= a < before.len() && before[a] == v;
                    if a < p {
                        assert(out@[a] == v);
                    } else {
                        assert(out@[a + 1] == v);
                    }
                }
            }
            assert forall|a: int, b: int| 0 <= a < b < out@.len()
                implies floor_key(x@, #[trigger] out@[a] as int) < floor_key(x@, #[trigger] out@[b] as int) by {
                if a < p && b < p {
                    assert(out@[a] == before[a] && out@[b] == before[b]);
                } else if a < p && b == p {
                } else if a < p {
                    assert(out@[b] == before[b - 1]);
                } else if a == p {
                    assert(out@[b] == before[b - 1]);
                } else {
                    assert(out@[a] == before[a - 1] && out@[b] == before[b - 1]);
                }
            }
        }
        j = j + 1;
    }
    out
}

/// The neighbours recorded for point `j` of a floor: its low and high
/// neighbours among the earlier points, or 0 where there is none.
pub open spec fn floor_neighbors_ok(x: Seq<u16>, nb: (u8, u8), j: int) -> bool {
    &&& (exists|i: int| 0 <= i < j && x[i] < x[j]) ==> is_low_neighbor(x, j, j, nb.0 as int)
    &&& !(exists|i: int| 0 <= i < j && x[i] < x[j]) ==> nb.0 == 0
    &&& (exists|i: int| 0 <= i < j && x[i] > x[j]) ==> is_high_neighbor(x, j, j, nb.1 as int)
    &&& !(exists|i: int| 0 <= i < j && x[i] > x[j]) ==> nb.1 == 0
}

/// How many points the first `n` partitions of a floor add: the dimension
/// of each partition's class.
pub open spec fn partition_points(pcl: Seq<u8>, dims: Seq<u8>, n: int) -> int
    decreases n,
{
    if n <= 0 { 0 } else { partition_points(pcl, dims, n - 1) + dims[pcl[n - 1] as int] }
}

/// A floor-1 configuration that decoding can follow: class and book
/// numbers within their tables, points that start at 0 and the range end,
/// their drawing order and neighbours.
pub open spec fn floor1_ok(g: Floor1, codebook_count: int) -> bool {
    let nc = g.class_dimensions@.len();
    &&& g.partitions <= 31
    &&& g.partition_class_list@.len() == g.partitions
    &&& nc <= 16
    &&& g.class_subclasses@.len() == nc
    &&& g.class_masterbooks@.len() == nc
    &&& g.subclass_books@.len() == nc
    &&& forall|j: int| 0 <= j < g.partitions ==> (#[trigger] g.partition_class_list@[j] as int) < nc
    &&& forall|k: int| 0 <= k < nc ==> 1 <= #[trigger] g.class_dimensions@[k] <= 8
    &&& forall|k: int| 0 <= k < nc ==> #[trigger] g.class_subclasses@[k] <= 3
    &&& forall|k: int| 0 <= k < nc && #[trigger] g.class_subclasses@[k] != 0 ==> g.class_masterbooks@[k] < codebook_count
    &&& forall|k: int| 0 <= k < nc ==> (#[trigger] g.subclass_books@[k])@.len() == pow2(g.class_subclasses@[k] as nat)
    &&& forall|k: int, m: int| #![trigger g.subclass_books@[k]@[m]] 0 <= k < nc && 0 <= m < g.subclass_books@[k]@.len()
        ==> -1 <= g.subclass_books@[k]@[m] < codebook_count
    &&& 1 <= g.floor1_multiplier <= 4
    &&& g.rangebits <= 15
    &&& 2 <= g.values <= 250
    &&& g.xlist@.len() == g.values
    &&& g.xlist@[0] == 0
    &&& g.xlist@[1] == pow2(g.rangebits as nat)
    &&& forall|i: int| 0 <= i < g.values ==> (#[trigger] g.xlist@[i] as int) <= pow2(g.rangebits as nat)
    &&& forall|i: int| 2 <= i < g.values ==> (#[trigger] g.xlist@[i] as int) < pow2(g.rangebits as nat)
    &&& g.values == 2 + partition_points(g.partition_class_list@, g.class_dimensions@, g.partitions as int)
    &&& g.sorted_order@.len() == g.values
    &&& floor_sorted(g.xlist@, g.sorted_order@)
    &&& forall|v: int| 0 <= v < g.values ==> #[trigger] occurs(g.sorted_order@, v)
    &&& g.neighbors@.len() == g.values
    &&& forall|j: int| 2 <= j < g.values ==> floor_neighbors_ok(g.xlist@, #[trigger] g.neighbors@[j], j)
}

// A floor-1 configuration in its bits `p`, first bit lowest: a 16-bit
// floor type; 5 bits of partitions; a 4-bit class for each partition; for
// each class up to the largest one named, 3 bits of its dimension less one,
// 2 subclass bits, when they are not 0 an 8-bit master book, and for each
// of its subclasses an 8-bit book plus one; 2 bits of the multiplier less
// one; 4 range bits; and for each partition as many points of that many
// bits as its class has dimensions.

/// The partitions of the floor in the bits `p`.
pub open spec fn fl_partitions(p: int) -> int {
    bit_field(p, 16, 5)
}

/// The class of partition `j`.
pub open spec fn fl_class_of(p: int, j: int) -> int {
    bit_field(p, (21 + 4 * j) as nat, 4)
}

/// The largest class of the first `j` partitions, or -1.
pub open spec fn fl_max_class(p: int, j: int) -> int
    decreases j,
{
    if j <= 0 {
        -1
    } else if fl_class_of(p, j - 1) > fl_max_class(p, j - 1) {
        fl_class_of(p, j - 1)
    } else {
        fl_max_class(p, j - 1)
    }
}

/// How many classes the floor in the bits `p` describes.
pub open spec fn fl_classes(p: int) -> int {
    fl_max_class(p, fl_partitions(p)) + 1
}

/// Where class `k` is described.
pub open spec fn fl_class_at(p: int, k: int) -> int
    decreases k,
{
    if k <= 0 {
        21 + 4 * fl_partitions(p)
    } else {
        let q = fl_class_at(p, k - 1);
        let sub = bit_field(p, (q + 3) as nat, 2);
        q + 5 + (if sub != 0 { 8int } else { 0int }) + 8 * pow2(sub as nat)
    }
}

/// The dimension of class `k`.
pub open spec fn fl_dims(p: int, k: int) -> int {
    bit_field(p, fl_class_at(p, k) as nat, 3) + 1
}

/// The subclass bits of class `k`.
pub open spec fn fl_subs(p: int, k: int) -> int {
    bit_field(p, (fl_class_at(p, k) + 3) as nat, 2)
}

/// The master book of class `k` (0 when it has no subclasses).
pub open spec fn fl_masterbook(p: int, k: int) -> int {
    if fl_subs(p, k) != 0 { bit_field(p, (fl_class_at(p, k) + 5) as nat, 8) } else { 0 }
}

/// Where the books of the subclasses of class `k` begin.
pub open spec fn fl_books_at(p: int, k: int) -> int {
    fl_class_at(p, k) + 5 + (if fl_subs(p, k) != 0 { 8int } else { 0int })
}

/// The book of subclass `m` of class `k`, or -1.
pub open spec fn fl_book(p: int, k: int, m: int) -> int {
    bit_field(p, (fl_books_at(p, k) + 8 * m) as nat, 8) - 1
}

/// Where the multiplier and the range bits lie.
pub open spec fn fl_tail_at(p: int) -> int {
    fl_class_at(p, fl_classes(p))
}

/// The range bits of the floor in the bits `p`.
pub open spec fn fl_rangebits(p: int) -> int {
    bit_field(p, (fl_tail_at(p) + 2) as nat, 4)
}

/// How many points the first `j` partitions have.
pub open spec fn fl_points(p: int, j: int) -> int
    decreases j,
{
    if j <= 0 { 0 } else { fl_points(p, j - 1) + fl_dims(p, fl_class_of(p, j - 1)) }
}

/// Where point `i` lies (after the two ends).
pub open spec fn fl_x_at(p: int, i: int) -> int {
    fl_tail_at(p) + 6 + fl_rangebits(p) * i
}

/// Point `i` (after the two ends).
pub open spec fn fl_x(p: int, i: int) -> int {
    bit_field(p, fl_x_at(p, i) as nat, fl_rangebits(p) as nat)
}

/// Where the floor in the bits `p` ends.
pub open spec fn fl_end(p: int) -> int {
    fl_x_at(p, fl_points(p, fl_partitions(p)))
}

/// The classes of the floor in the bits `p` name books of the table; a
/// master book is held to the table's size taken as a byte.
pub open spec fn floor1_classes_ok(p: int, codebook_count: int) -> bool {
    &&& forall|k: int| 0 <= k < fl_classes(p) && fl_subs(p, k) != 0 ==> #[trigger] fl_masterbook(p, k) < codebook_count % 256
    &&& forall|k: int, m: int| 0 <= k < fl_classes(p) && 0 <= m < pow2(fl_subs(p, k) as nat)
        ==> #[trigger] fl_book(p, k, m) < codebook_count
}

/// `g` holds the floor-1 configuration in the bits `p`.
pub open spec fn floor1_read(g: Floor1, p: int) -> bool {
    &&& g.partitions == fl_partitions(p)
    &&& forall|j: int| 0 <= j < fl_partitions(p) ==> #[trigger] g.partition_class_list@[j] == fl_class_of(p, j)
    &&& g.class_dimensions@.len() == fl_classes(p)
    &&& forall|k: int| 0 <= k < fl_classes(p) ==> #[trigger] g.class_dimensions@[k] == fl_dims(p, k)
    &&& forall|k: int| 0 <= k < fl_classes(p) ==> #[trigger] g.class_subclasses@[k] == fl_subs(p, k)
    &&& forall|k: int| 0 <= k < fl_classes(p) ==> #[trigger] g.class_masterbooks@[k] == fl_masterbook(p, k)
    &&& forall|k: int, m: int| 0 <= k < fl_classes(p) && 0 <= m < pow2(fl_subs(p, k) as nat)
        ==> #[trigger] g.subclass_books@[k]@[m] == fl_book(p, k, m)
    &&& g.floor1_multiplier == bit_field(p, fl_tail_at(p) as nat, 2) + 1
    &&& g.rangebits == fl_rangebits(p)
    &&& g.xlist@.len() == 2 + fl_points(p, fl_partitions(p))
    &&& forall|i: int| 0 <= i < fl_points(p, fl_partitions(p)) ==> #[trigger] g.xlist@[i + 2] == fl_x(p, i)
}

/// The floor in the bits `p` is a floor 1 that decoding accepts.
pub open spec fn floor1_bits_ok(p: int, codebook_count: int) -> bool {
    bit_field(p, 0, 16) == 1 && floor1_classes_ok(p, codebook_count)
}

/// The largest class named lies between -1 and 15.
proof fn lemma_max_class_bounds(p: int, j: int)
    ensures
        -1 <= fl_max_class(p, j) <= 15,
    decreases j,
{
    if j > 0 {
        lemma_max_class_bounds(p, j - 1);
        vstd::arithmetic::power2::lemma2_to64();
        vstd::arithmetic::power2::lemma_pow2_pos((21 + 4 * (j - 1)) as nat);
        vstd::arithmetic::div_mod::lemma_mod_bound(p / pow2((21 + 4 * (j - 1)) as nat) as int, 16);
    }
}

/// Point `i + 1` lies `rangebits` bits after point `i`, and no point the
/// floor has lies past its end.
proof fn lemma_x_step(p: int, i: int)
    requires
        0 <= i < fl_points(p, fl_partitions(p)),
    ensures
        fl_x_at(p, i + 1) == fl_x_at(p, i) + fl_rangebits(p),
        fl_x_at(p, i + 1) <= fl_end(p),
        fl_tail_at(p) + 6 <= fl_x_at(p, i),
{
    let rb = fl_rangebits(p);
    let n = fl_points(p, fl_partitions(p));
    vstd::arithmetic::power2::lemma_pow2_pos(4);
    vstd::arithmetic::power2::lemma_pow2_pos((fl_tail_at(p) + 2) as nat);
    assert(rb >= 0);
    assert(rb * (i + 1) == rb * i + rb) by (nonlinear_arith);
    assert(rb * (i + 1) <= rb * n) by (nonlinear_arith) requires rb >= 0, i + 1 <= n;
    assert(rb * i >= 0) by (nonlinear_arith) requires rb >= 0, i >= 0;
}

/// Class descriptions take at least 13 bits each.
proof fn lemma_class_grows(p: int, k: int, m: int)
    requires
        0 <= k <= m,
    ensures
        fl_class_at(p, k) + 13 * (m - k) <= fl_class_at(p, m),
    decreases m - k,
{
    if k < m {
        lemma_class_grows(p, k, m - 1);
        let q = fl_class_at(p, m - 1);
        vstd::arithmetic::power2::lemma_pow2_pos(bit_field(p, (q + 3) as nat, 2) as nat);
    }
}

/// Point counts never decrease along the partitions.
proof fn lemma_points_grow(p: int, j: int, m: int)
    requires
        0 <= j <= m,
    ensures
        fl_points(p, j) <= fl_points(p, m),
        0 <= fl_points(p, j),
    decreases m,
{
    if j < m {
        lemma_points_grow(p, j, m - 1);
        lemma_dims_pos(p, fl_class_of(p, m - 1));
    } else if m > 0 {
        lemma_points_grow(p, m - 1, m - 1);
        lemma_dims_pos(p, fl_class_of(p, m - 1));
    }
}

proof fn lemma_dims_pos(p: int, k: int)
    ensures
        fl_dims(p, k) >= 1,
{
    vstd::arithmetic::power2::lemma_pow2_pos(fl_class_at(p, k) as nat);
    vstd::arithmetic::power2::lemma_pow2_pos(3);
}

/// A floor-0 configuration read from the bits `p` of its header (first
/// bit lowest), after its 16-bit type: the order (8 bits), the rate and
/// the bark map size (16 bits each), the amplitude bits (6) and offset (8),
/// the number of books less one (4) and a byte per book.
pub open spec fn floor0_read(g: Floor0, p: int) -> bool {
    &&& g.order == bit_field(p, 16, 8)
    &&& g.rate == bit_field(p, 24, 16)
    &&& g.bark_map_size == bit_field(p, 40, 16)
    &&& g.amplitude_bits == bit_field(p, 56, 6)
    &&& g.amplitude_offset == bit_field(p, 62, 8)
    &&& g.number_of_books == bit_field(p, 70, 4) + 1
    &&& forall|k: int| 0 <= k < g.number_of_books ==> #[trigger] g.book_list@[k] == bit_field(p, (74 + 8 * k) as nat, 8)
}

/// Where a floor-0 configuration with header bits `p` ends.
pub open spec fn floor0_end(p: int) -> int {
    74 + 8 * (bit_field(p, 70, 4) + 1)
}

/// Reads a floor-0 configuration (which the decoder then refuses).
fn read_floor0(f: &mut Vorbis, Ghost(p): Ghost<int>, Ghost(t): Ghost<int>) -> (g: Floor0)
    requires
        old(f).wf(),
    ensures
        final(f).wf(),
        final(f).same_setup(&*old(f)),
        g.book_list@.len() == g.number_of_books,
        reading_at(*old(f), p, 16, t) && floor0_end(p) <= t ==> floor0_read(g, p),
{
    proof { vstd::arithmetic::power2::lemma2_to64(); }
    let ghost exact = reading_at(*f, p, 16, t) && floor0_end(p) <= t;
    proof {
        vstd::arithmetic::power2::lemma_pow2_pos(4);
    }
    let order = get_field(f, 8, Ghost(p), Ghost(16), Ghost(t)) as u8;
    let rate = get_field(f, 16, Ghost(p), Ghost(24), Ghost(t)) as u16;
    let bark_map_size = get_field(f, 16, Ghost(p), Ghost(40), Ghost(t)) as u16;
    let amplitude_bits = get_field(f, 6, Ghost(p), Ghost(56), Ghost(t)) as u8;
    let amplitude_offset = get_field(f, 8, Ghost(p), Ghost(62), Ghost(t)) as u8;
    let number_of_books = (get_field(f, 4, Ghost(p), Ghost(70), Ghost(t)) + 1) as u8;
    let mut book_list: Vec<u8> = Vec::new();
    let mut j: u8 = 0;
    while j < number_of_books
        invariant
            f.wf(),
            f.same_setup(&*old(f)),
            j <= number_of_books <= 16,
            book_list@.len() == j,
            exact ==> reading_at(*f, p, 74 + 8 * j, t) && number_of_books == bit_field(p, 70, 4) + 1
                && floor0_end(p) <= t,
            exact ==> forall|k: int| 0 <= k < j ==> #[trigger] book_list@[k] == bit_field(p, (74 + 8 * k) as nat, 8),
        decreases number_of_books - j,
    {
        proof { vstd::arithmetic::power2::lemma2_to64(); }
        let v = get_field(f, 8, Ghost(p), Ghost(74 + 8 * j), Ghost(t)) as u8;
        book_list.push(v);
        j = j + 1;
    }
    let g = Floor0 { order, rate, bark_map_size, amplitude_bits, amplitude_offset, number_of_books, book_list };
    proof {
        if exact {
            assert(floor0_read(g, p));
        }
    }
    g
}

/// `2^k` for `k <= 3`.
pub(crate) fn pow2_small(k: u8) -> (r: usize)
    requires
        k <= 3,
    ensures
        r == pow2(k as nat),
        1 <= r <= 8,
{
    proof { vstd::arithmetic::power2::lemma2_to64(); }
    if k == 0 { 1 } else if k == 1 { 2 } else if k == 2 { 4 } else { 8 }
}

/// Reads the classes of a floor-1 configuration: for each, its dimension,
/// its subclass bits, its master book and the books of its subclasses.
fn read_floor1_classes(f: &mut Vorbis, nc: usize, codebook_count: i32, Ghost(p): Ghost<int>, Ghost(t): Ghost<int>)
    -> (r: Option<(Vec<u8>, Vec<u8>, Vec<u8>, Vec<Vec<i16>>)>)
    requires
        old(f).wf(),
        nc <= 16,
        1 <= codebook_count <= 256,
    ensures
        final(f).wf(),
        final(f).same_setup(&*old(f)),
        r is None ==> final(f).error == VorbisError::InvalidSetup,
        r matches Some((dims, subs, mbs, books)) ==> {
            &&& dims@.len() == nc && subs@.len() == nc && mbs@.len() == nc && books@.len() == nc
            &&& forall|k: int| 0 <= k < nc ==> 1 <= #[trigger] dims@[k] <= 8
            &&& forall|k: int| 0 <= k < nc ==> #[trigger] subs@[k] <= 3
            &&& forall|k: int| 0 <= k < nc && #[trigger] subs@[k] != 0 ==> mbs@[k] < codebook_count
            &&& forall|k: int| 0 <= k < nc ==> (#[trigger] books@[k])@.len() == pow2(subs@[k] as nat)
            &&& forall|k: int, m: int| #![trigger books@[k]@[m]] 0 <= k < nc && 0 <= m < books@[k]@.len()
                ==> -1 <= books@[k]@[m] < codebook_count
        },
        reading_at(*old(f), p, fl_class_at(p, 0), t) && nc == fl_classes(p) && fl_tail_at(p) <= t ==> {
            &&& r is Some <==> floor1_classes_ok(p, codebook_count as int)
            &&& r matches Some((dims, subs, mbs, books)) ==> reading_at(*final(f), p, fl_tail_at(p), t)
                && (forall|k: int| 0 <= k < nc ==> #[trigger] dims@[k] == fl_dims(p, k))
                && (forall|k: int| 0 <= k < nc ==> #[trigger] subs@[k] == fl_subs(p, k))
                && (forall|k: int| 0 <= k < nc ==> #[trigger] mbs@[k] == fl_masterbook(p, k))
                && (forall|k: int, m: int| 0 <= k < nc && 0 <= m < pow2(fl_subs(p, k) as nat)
                    ==> #[trigger] books@[k]@[m] == fl_book(p, k, m))
        },
{
    let ghost exact = reading_at(*f, p, fl_class_at(p, 0), t) && nc == fl_classes(p) && fl_tail_at(p) <= t;
    let ghost mut pos: int = fl_class_at(p, 0);
    let cc8: u8 = if codebook_count >= 256 { 0 } else { codebook_count as u8 };
    assert(cc8 as int == codebook_count % 256);
    let mut dims: Vec<u8> = Vec::new();
    let mut subs: Vec<u8> = Vec::new();
    let mut mbs: Vec<u8> = Vec::new();
    let mut books: Vec<Vec<i16>> = Vec::new();
    let mut k: usize = 0;
    while k < nc
        invariant
            f.wf(),
            f.same_setup(&*old(f)),
            k <= nc <= 16,
            1 <= codebook_count <= 256,
            cc8 as int == (if codebook_count >= 256 { 0 } else { codebook_count as int }),
            cc8 as int == codebook_count % 256,
            dims@.len() == k && subs@.len() == k && mbs@.len() == k && books@.len() == k,
            forall|q: int| 0 <= q < k && #[trigger] subs@[q] != 0 ==> mbs@[q] < cc8,
            forall|q: int| 0 <= q < k ==> 1 <= #[trigger] dims@[q] <= 8,
            forall|q: int| 0 <= q < k ==> #[trigger] subs@[q] <= 3,
            forall|q: int| 0 <= q < k && #[trigger] subs@[q] != 0 ==> mbs@[q] < codebook_count,
            forall|q: int| 0 <= q < k ==> (#[trigger] books@[q])@.len() == pow2(subs@[q] as nat),
            forall|q: int, m: int| #![trigger books@[q]@[m]] 0 <= q < k && 0 <= m < books@[q]@.len()
                ==> -1 <= books@[q]@[m] < codebook_count,
            exact == (reading_at(*old(f), p, fl_class_at(p, 0), t) && nc == fl_classes(p) && fl_tail_at(p) <= t),
            exact ==> pos == fl_class_at(p, k as int) && reading_at(*f, p, pos, t),
            exact ==> forall|q: int| 0 <= q < k ==> #[trigger] dims@[q] == fl_dims(p, q),
            exact ==> forall|q: int| 0 <= q < k ==> #[trigger] subs@[q] == fl_subs(p, q),
            exact ==> forall|q: int| 0 <= q < k ==> #[trigger] mbs@[q] == fl_masterbook(p, q),
            exact ==> forall|q: int, m: int| 0 <= q < k && 0 <= m < pow2(fl_subs(p, q) as nat)
                ==> #[trigger] books@[q]@[m] == fl_book(p, q, m),
        decreases nc - k,
    {
        proof {
            vstd::arithmetic::power2::lemma2_to64();
            if exact {
                lemma_class_grows(p, k + 1, nc as int);
            }
        }
        let d = (get_field(f, 3, Ghost(p), Ghost(pos), Ghost(t)) + 1) as u8;
        proof { pos = pos + 3; }
        let sub = get_field(f, 2, Ghost(p), Ghost(pos), Ghost(t)) as u8;
        proof {
            pos = pos + 2;
            if exact {
                assert(sub as int == fl_subs(p, k as int));
                assert(fl_class_at(p, k + 1) == fl_books_at(p, k as int) + 8 * pow2(sub as nat));
            }
        }
        let mut mb: u8 = 0;
        if sub != 0 {
            mb = get_field(f, 8, Ghost(p), Ghost(pos), Ghost(t)) as u8;
            proof { pos = pos + 8; }
            if mb >= cc8 {
                proof {
                    if exact {
                        assert(mb as int == fl_masterbook(p, k as int));
                    }
                }
                error(f, VorbisError::InvalidSetup);
                return None;
            }
        }
        let nb = pow2_small(sub);
        let mut bl: Vec<i16> = Vec::new();
        let mut m: usize = 0;
        while m < nb
            invariant
                f.wf(),
                f.same_setup(&*old(f)),
                m <= nb <= 8,
                nb == pow2(sub as nat),
                1 <= codebook_count <= 256,
                bl@.len() == m,
                forall|q: int| 0 <= q < m ==> -1 <= #[trigger] bl@[q] < codebook_count,
                exact == (reading_at(*old(f), p, fl_class_at(p, 0), t) && nc == fl_classes(p) && fl_tail_at(p) <= t),
                exact ==> k < nc && sub == fl_subs(p, k as int) && pos == fl_books_at(p, k as int) + 8 * m
                    && reading_at(*f, p, pos, t) && fl_books_at(p, k as int) + 8 * nb == fl_class_at(p, k + 1)
                    && fl_class_at(p, k + 1) <= t,
                exact ==> forall|q: int| 0 <= q < m ==> #[trigger] bl@[q] == fl_book(p, k as int, q),
            decreases nb - m,
        {
            proof { vstd::arithmetic::power2::lemma2_to64(); }
            let b = get_field(f, 8, Ghost(p), Ghost(pos), Ghost(t)) as i16 - 1;
            proof {
                pos = pos + 8;
                if exact {
                    assert(b as int == fl_book(p, k as int, m as int));
                }
            }
            if b >= codebook_count as i16 {
                error(f, VorbisError::InvalidSetup);
                return None;
            }
            bl.push(b);
            m = m + 1;
        }
        dims.push(d);
        subs.push(sub);
        mbs.push(mb);
        books.push(bl);
        proof {
            assert(books@[k as int] == bl);
            if exact {
                assert(d as int == fl_dims(p, k as int));
                assert(mb as int == fl_masterbook(p, k as int));
            }
        }
        k = k + 1;
    }
    proof {
        if exact {
            assert forall|q: int| 0 <= q < fl_classes(p) && fl_subs(p, q) != 0
                implies #[trigger] fl_masterbook(p, q) < codebook_count % 256 by {
                assert(subs@[q] == fl_subs(p, q) && mbs@[q] == fl_masterbook(p, q));
            }
            assert forall|q: int, m: int| 0 <= q < fl_classes(p) && 0 <= m < pow2(fl_subs(p, q) as nat)
                implies #[trigger] fl_book(p, q, m) < codebook_count by {
                assert(subs@[q] == fl_subs(p, q));
                assert(books@[q]@[m] == fl_book(p, q, m));
            }
        }
    }
    Some((dims, subs, mbs, books))
}

/// Reads a floor-1 configuration and works out the drawing order and the
/// neighbours of its points.
fn read_floor1(f: &mut Vorbis, codebook_count: i32, Ghost(p): Ghost<int>, Ghost(t): Ghost<int>) -> (r: Option<Floor1>)
    requires
        old(f).wf(),
        1 <= codebook_count <= 256,
    ensures
        final(f).wf(),
        final(f).same_setup(&*old(f)),
        r is Some ==> floor1_ok(r->0, codebook_count as int),
        r is None ==> final(f).error == VorbisError::InvalidSetup,
        reading_at(*old(f), p, 16, t) && fl_end(p) <= t ==> {
            &&& r is Some <==> floor1_classes_ok(p, codebook_count as int)
            &&& r is Some ==> floor1_read(r->0, p)
        },
{
    proof { vstd::arithmetic::power2::lemma2_to64(); }
    let ghost exact = reading_at(*f, p, 16, t) && fl_end(p) <= t;
    let ghost mut pos: int = 16;
    proof {
        lemma_max_class_bounds(p, fl_partitions(p));
        lemma_class_grows(p, 0, fl_classes(p));
        if exact && fl_points(p, fl_partitions(p)) > 0 {
            lemma_x_step(p, 0);
        }
        lemma_points_grow(p, 0, fl_partitions(p));
        vstd::arithmetic::power2::lemma_pow2_pos(4);
        vstd::arithmetic::power2::lemma_pow2_pos((fl_tail_at(p) + 2) as nat);
        assert(fl_rangebits(p) * fl_points(p, fl_partitions(p)) >= 0) by (nonlinear_arith)
            requires fl_rangebits(p) >= 0, fl_points(p, fl_partitions(p)) >= 0;
    }
    let partitions = get_field(f, 5, Ghost(p), Ghost(pos), Ghost(t)) as u8;
    proof { pos = 21; }
    let mut pcl: Vec<u8> = Vec::new();
    let mut max_class: i32 = -1;
    let mut j: u8 = 0;
    while j < partitions
        invariant
            f.wf(),
            f.same_setup(&*old(f)),
            j <= partitions <= 31,
            pcl@.len() == j,
            -1 <= max_class <= 15,
            forall|q: int| 0 <= q < j ==> (#[trigger] pcl@[q] as int) <= max_class,
            exact == (reading_at(*old(f), p, 16, t) && fl_end(p) <= t),
            exact ==> partitions == fl_partitions(p) && pos == 21 + 4 * j && reading_at(*f, p, pos, t)
                && fl_class_at(p, 0) <= fl_tail_at(p) <= fl_end(p) <= t,
            exact ==> max_class == fl_max_class(p, j as int),
            exact ==> forall|q: int| 0 <= q < j ==> #[trigger] pcl@[q] == fl_class_of(p, q),
        decreases partitions - j,
    {
        proof { vstd::arithmetic::power2::lemma2_to64(); }
        let v = get_field(f, 4, Ghost(p), Ghost(pos), Ghost(t)) as u8;
        proof {
            pos = pos + 4;
            if exact {
                assert(v as int == fl_class_of(p, j as int));
            }
        }
        pcl.push(v);
        if v as i32 > max_class {
            max_class = v as i32;
        }
        j = j + 1;
    }
    let nc = (max_class + 1) as usize;
    let (dims, subs, mbs, books) = match read_floor1_classes(f, nc, codebook_count, Ghost(p), Ghost(t)) {
        None => { return None; },
        Some(t) => t,
    };
    proof {
        vstd::arithmetic::power2::lemma2_to64();
        pos = fl_tail_at(p);
    }
    let multiplier = (get_field(f, 2, Ghost(p), Ghost(pos), Ghost(t)) + 1) as u8;
    proof { pos = pos + 2; }
    let rangebits = get_field(f, 4, Ghost(p), Ghost(pos), Ghost(t)) as u8;
    proof {
        pos = pos + 4;
        vstd::bits::lemma_u32_shl_is_mul(1, rangebits as u32);
        if rangebits < 15 {
            vstd::arithmetic::power2::lemma_pow2_strictly_increases(rangebits as nat, 15);
        }
    }
    let top = (1u32 << (rangebits as u32)) as u16;
    let mut xlist: Vec<u16> = Vec::new();
    xlist.push(0);
    xlist.push(top);
    let mut j: usize = 0;
    while j < partitions as usize
        invariant
            f.wf(),
            f.same_setup(&*old(f)),
            j <= partitions <= 31,
            rangebits <= 15,
            pcl@.len() == partitions,
            dims@.len() == nc,
            forall|q: int| 0 <= q < partitions ==> (#[trigger] pcl@[q] as int) < nc,
            forall|k: int| 0 <= k < nc ==> 1 <= #[trigger] dims@[k] <= 8,
            2 <= xlist@.len() <= 2 + 8 * j,
            xlist@.len() == 2 + partition_points(pcl@, dims@, j as int),
            xlist@[0] == 0,
            xlist@[1] == pow2(rangebits as nat),
            forall|i: int| 0 <= i < xlist@.len() ==> (#[trigger] xlist@[i] as int) <= pow2(rangebits as nat),
            forall|i: int| 2 <= i < xlist@.len() ==> (#[trigger] xlist@[i] as int) < pow2(rangebits as nat),
            exact == (reading_at(*old(f), p, 16, t) && fl_end(p) <= t),
            exact ==> partitions == fl_partitions(p) && nc == fl_classes(p) && rangebits == fl_rangebits(p)
                && fl_end(p) <= t,
            exact ==> forall|q: int| 0 <= q < partitions ==> #[trigger] pcl@[q] == fl_class_of(p, q),
            exact ==> forall|k: int| 0 <= k < nc ==> #[trigger] dims@[k] == fl_dims(p, k),
            exact ==> partition_points(pcl@, dims@, j as int) == fl_points(p, j as int)
                && pos == fl_x_at(p, fl_points(p, j as int)) && reading_at(*f, p, pos, t),
            exact ==> forall|i: int| 0 <= i < fl_points(p, j as int) ==> #[trigger] xlist@[i + 2] == fl_x(p, i),
        decreases partitions - j,
    {
        let c = pcl[j] as usize;
        let cd = dims[c];
        let mut k: u8 = 0;
        let ghost len0 = xlist@.len();
        proof {
            if exact {
                lemma_points_grow(p, j + 1, partitions as int);
                assert(fl_points(p, j + 1) == fl_points(p, j as int) + cd);
            }
        }
        while k < cd
            invariant
                f.wf(),
                f.same_setup(&*old(f)),
                k <= cd <= 8,
                rangebits <= 15,
                xlist@.len() == len0 + k,
                xlist@[0] == 0,
                xlist@[1] == pow2(rangebits as nat),
                len0 >= 2,
                forall|i: int| 0 <= i < xlist@.len() ==> (#[trigger] xlist@[i] as int) <= pow2(rangebits as nat),
                forall|i: int| 2 <= i < xlist@.len() ==> (#[trigger] xlist@[i] as int) < pow2(rangebits as nat),
                exact == (reading_at(*old(f), p, 16, t) && fl_end(p) <= t),
                exact ==> rangebits == fl_rangebits(p) && len0 == 2 + fl_points(p, j as int)
                    && fl_points(p, j as int) + cd <= fl_points(p, fl_partitions(p))
                    && pos == fl_x_at(p, fl_points(p, j as int) + k) && reading_at(*f, p, pos, t),
                exact ==> forall|i: int| 0 <= i < fl_points(p, j as int) + k ==> #[trigger] xlist@[i + 2] == fl_x(p, i),
            decreases cd - k,
        {
            proof {
                if exact {
                    lemma_x_step(p, fl_points(p, j as int) + k);
                }
            }
            let v = get_field(f, rangebits as i32, Ghost(p), Ghost(pos), Ghost(t));
            proof {
                pos = pos + rangebits;
                vstd::arithmetic::power2::lemma2_to64();
                if rangebits < 15 {
                    vstd::arithmetic::power2::lemma_pow2_strictly_increases(rangebits as nat, 15);
                }
            }
            xlist.push(v as u16);
            proof {
                if exact {
                    assert(xlist@[fl_points(p, j as int) + k + 2] == fl_x(p, fl_points(p, j as int) + k));
                }
            }
            k = k + 1;
        }
        j = j + 1;
    }
    let values = xlist.len();
    let sorted_order = floor_sort_order(&xlist);
    let mut nbv: Vec<(u8, u8)> = Vec::new();
    nbv.push((0, 0));
    nbv.push((0, 0));
    let mut j: usize = 2;
    while j < values
        invariant
            2 <= j <= values,
            values == xlist@.len(),
            values <= 250,
            nbv@.len() == j,
            forall|q: int| 2 <= q < j ==> floor_neighbors_ok(xlist@, #[trigger] nbv@[q], q),
        decreases values - j,
    {
        let mut low: i32 = 0;
        let mut high: i32 = 0;
        neighbors(xlist.as_slice(), j, &mut low, &mut high);
        nbv.push((low as u8, high as u8));
        proof {
            assert(nbv@[j as int] == (low as u8, high as u8));
        }
        j = j + 1;
    }
    Some(Floor1 {
        partitions,
        partition_class_list: pcl,
        class_dimensions: dims,
        class_subclasses: subs,
        class_masterbooks: mbs,
        subclass_books: books,
        xlist,
        sorted_order,
        neighbors: nbv,
        floor1_multiplier: multiplier,
        rangebits,
        values: values as i32,
    })
}

/// Reads one floor configuration: type 1 is read; type 0 is read and
/// refused as unsupported; other types are invalid.
pub fn parse_floor(f: &mut Vorbis, codebook_count: i32) -> (r: Option<Floor1>)
    requires
        old(f).wf(),
        1 <= codebook_count <= 256,
    ensures
        final(f).wf(),
        final(f).same_setup(&*old(f)),
        r is Some ==> floor1_ok(r->0, codebook_count as int),
        r is None ==> final(f).error == VorbisError::InvalidSetup || final(f).error == VorbisError::FeatureNotSupported,
        0 <= old(f).valid_bits && fl_end(page_bits(*old(f))) <= bits_in_page(*old(f)) ==> {
            let p = page_bits(*old(f));
            &&& r is Some <==> floor1_bits_ok(p, codebook_count as int)
            &&& r is Some ==> floor1_read(r->0, p)
        },
{
    let ghost p = page_bits(*f);
    let ghost t = bits_in_page(*f);
    proof {
        lemma_page_bits_nonneg(*f);
        vstd::arithmetic::power2::lemma2_to64();
        assert(p / pow2(0) as int == p);
        lemma_max_class_bounds(p, fl_partitions(p));
        lemma_class_grows(p, 0, fl_classes(p));
        lemma_points_grow(p, 0, fl_partitions(p));
        vstd::arithmetic::power2::lemma_pow2_pos(4);
        vstd::arithmetic::power2::lemma_pow2_pos((fl_tail_at(p) + 2) as nat);
        assert(fl_rangebits(p) * fl_points(p, fl_partitions(p)) >= 0) by (nonlinear_arith)
            requires fl_rangebits(p) >= 0, fl_points(p, fl_partitions(p)) >= 0;
    }
    let ftype = get_field(f, 16, Ghost(p), Ghost(0), Ghost(t));
    if ftype > 1 {
        error(f, VorbisError::InvalidSetup);
        return None;
    }
    if ftype == 0 {
        let _g = read_floor0(f, Ghost(p), Ghost(t));
        error(f, VorbisError::FeatureNotSupported);
        return None;
    }
    read_floor1(f, codebook_count, Ghost(p), Ghost(t))
}

/// A residue configuration that decoding can follow: its books within the
/// codebook table, and for each entry of its class book the classification
/// of each partition it encodes.
pub open spec fn residue_ok(r: Residue, rtype: u16, codebooks: Seq<Codebook>) -> bool {
    &&& rtype <= 2
    &&& r.begin <= r.end < 0x100_0000
    &&& 1 <= r.part_size <= 0x100_0000
    &&& 1 <= r.classifications <= 64
    &&& (r.classbook as int) < codebooks.len()
    &&& r.residue_books@.len() == r.classifications
    &&& forall|j: int| 0 <= j < r.classifications ==> (#[trigger] r.residue_books@[j])@.len() == 8
    &&& forall|j: int, k: int| #![trigger r.residue_books@[j]@[k]] 0 <= j < r.classifications && 0 <= k < 8
        ==> -1 <= r.residue_books@[j]@[k] < codebooks.len()
    &&& r.classdata@.len() == codebooks[r.classbook as int].entries
    &&& forall|j: int| 0 <= j < r.classdata@.len() ==> (#[trigger] r.classdata@[j])@.len() == codebooks[r.classbook as int].dimensions
    &&& forall|j: int, k: int| #![trigger r.classdata@[j]@[k]] 0 <= j < r.classdata@.len()
        && 0 <= k < codebooks[r.classbook as int].dimensions
        ==> r.classdata@[j]@[k] == class_digit(j, r.classifications as int, codebooks[r.classbook as int].dimensions as int, k)
}

// A residue configuration in its bits `p`, first bit lowest: a 16-bit
// type; 24-bit begin and end; 24 bits of the partition size less one; 6
// bits of the classifications less one; an 8-bit class book; for each
// classification 3 low bits of its cascade, a flag and, when set, 5 high
// bits; then for each classification and each set bit of its cascade,
// lowest first, an 8-bit book.

/// Where the cascade of classification `j` lies.
pub open spec fn res_cascade_at(p: int, j: int) -> int
    decreases j,
{
    if j <= 0 {
        102
    } else {
        let q = res_cascade_at(p, j - 1);
        q + 4 + (if bit_field(p, (q + 3) as nat, 1) != 0 { 5int } else { 0int })
    }
}

/// The cascade of classification `j`: which of the 8 passes have a book.
pub open spec fn res_cascade(p: int, j: int) -> int {
    let q = res_cascade_at(p, j);
    bit_field(p, q as nat, 3) + (if bit_field(p, (q + 3) as nat, 1) != 0 { 8 * bit_field(p, (q + 4) as nat, 5) } else { 0 })
}

/// Pass `k` of classification `j` has a book.
pub open spec fn res_has_book(p: int, j: int, k: int) -> bool {
    (res_cascade(p, j) as u8) & (1u8 << (k as u8)) != 0
}

/// The classifications of the residue in the bits `p`.
pub open spec fn res_classifications(p: int) -> int {
    bit_field(p, 88, 6) + 1
}

/// How many books come before pass `k` of classification `j`.
pub open spec fn res_books_before(p: int, j: int, k: int) -> int
    decreases j, k,
{
    if k > 0 && k <= 8 {
        res_books_before(p, j, k - 1) + (if res_has_book(p, j, k - 1) { 1int } else { 0int })
    } else if j > 0 {
        res_books_before(p, j - 1, 8)
    } else {
        0
    }
}

/// The book of pass `k` of classification `j`, or -1.
pub open spec fn res_book(p: int, j: int, k: int) -> int {
    if res_has_book(p, j, k) {
        bit_field(p, (res_cascade_at(p, res_classifications(p)) + 8 * res_books_before(p, j, k)) as nat, 8)
    } else {
        -1
    }
}

/// Where the residue in the bits `p` ends.
pub open spec fn res_end(p: int) -> int {
    res_cascade_at(p, res_classifications(p)) + 8 * res_books_before(p, res_classifications(p), 0)
}

/// The residue in the bits `p` is one that decoding accepts.
pub open spec fn residue_bits_ok(p: int, codebook_count: int) -> bool {
    &&& bit_field(p, 0, 16) <= 2
    &&& bit_field(p, 16, 24) <= bit_field(p, 40, 24)
    &&& bit_field(p, 94, 8) < codebook_count
    &&& forall|j: int, k: int| 0 <= j < res_classifications(p) && 0 <= k < 8 && res_has_book(p, j, k)
        ==> #[trigger] res_book(p, j, k) < codebook_count
}

/// `res` of type `rtype` holds the residue in the bits `p`.
pub open spec fn residue_read(rtype: u16, res: Residue, p: int) -> bool {
    &&& rtype == bit_field(p, 0, 16)
    &&& res.begin == bit_field(p, 16, 24)
    &&& res.end == bit_field(p, 40, 24)
    &&& res.part_size == bit_field(p, 64, 24) + 1
    &&& res.classifications == res_classifications(p)
    &&& res.classbook == bit_field(p, 94, 8)
    &&& forall|j: int, k: int| 0 <= j < res_classifications(p) && 0 <= k < 8
        ==> #[trigger] res.residue_books@[j]@[k] == res_book(p, j, k)
}

/// The cascades take at least 4 bits each.
proof fn lemma_cascade_grows(p: int, j: int, m: int)
    requires
        0 <= j <= m,
    ensures
        res_cascade_at(p, j) + 4 * (m - j) <= res_cascade_at(p, m),
    decreases m - j,
{
    if j < m {
        lemma_cascade_grows(p, j, m - 1);
    }
}

/// The books before a pass never decrease along the passes.
proof fn lemma_books_grow(p: int, j: int, k: int, m: int)
    requires
        0 <= j < m,
        0 <= k <= 8,
    ensures
        res_books_before(p, j, k) + (if k < 8 && res_has_book(p, j, k) { 1int } else { 0int }) <= res_books_before(p, m, 0),
        res_books_before(p, j, k) >= 0,
    decreases m - j, 8 - k,
{
    if k < 8 {
        lemma_books_grow(p, j, k + 1, m);
    } else if j + 1 < m {
        lemma_books_grow(p, j + 1, 0, m);
        assert(res_books_before(p, j + 1, 0) == res_books_before(p, j, 8));
    } else {
        assert(res_books_before(p, m, 0) == res_books_before(p, j, 8));
    }
    lemma_books_nonneg(p, j, k);
}

proof fn lemma_books_nonneg(p: int, j: int, k: int)
    requires
        0 <= j,
        0 <= k <= 8,
    ensures
        res_books_before(p, j, k) >= 0,
    decreases j, k,
{
    if k > 0 {
        lemma_books_nonneg(p, j, k - 1);
    } else if j > 0 {
        lemma_books_nonneg(p, j - 1, 8);
    }
}

/// Reads one residue configuration; returns its type with it.
#[verifier::rlimit(100)]
pub fn parse_residue(f: &mut Vorbis, codebooks: &Vec<Codebook>) -> (r: Option<(u16, Residue)>)
    requires
        old(f).wf(),
        1 <= codebooks@.len() <= 256,
        forall|i: int| 0 <= i < codebooks@.len() ==> codebook_setup_ok(#[trigger] codebooks@[i]),
    ensures
        final(f).wf(),
        final(f).same_setup(&*old(f)),
        r matches Some((t, res)) ==> residue_ok(res, t, codebooks@),
        r is None ==> final(f).error == VorbisError::InvalidSetup,
        0 <= old(f).valid_bits && res_end(page_bits(*old(f))) <= bits_in_page(*old(f)) ==> {
            let p = page_bits(*old(f));
            &&& r is Some <==> residue_bits_ok(p, codebooks@.len() as int)
            &&& r matches Some((t, res)) ==> residue_read(t, res, p)
        },
{
    proof { vstd::arithmetic::power2::lemma2_to64(); }
    let ghost p = page_bits(*f);
    let ghost t = bits_in_page(*f);
    let ghost exact = 0 <= f.valid_bits && res_end(p) <= t;
    let ghost mut pos: int = 0;
    proof {
        lemma_page_bits_nonneg(*f);
        assert(p / pow2(0) as int == p);
        lemma_cascade_grows(p, 0, res_classifications(p));
        lemma_books_nonneg(p, res_classifications(p), 0);
    }
    let rtype = get_field(f, 16, Ghost(p), Ghost(pos), Ghost(t)) as u16;
    proof { pos = 16; }
    if rtype > 2 {
        error(f, VorbisError::InvalidSetup);
        return None;
    }
    let begin = get_field(f, 24, Ghost(p), Ghost(pos), Ghost(t));
    proof { pos = 40; }
    let end = get_field(f, 24, Ghost(p), Ghost(pos), Ghost(t));
    proof { pos = 64; }
    if end < begin {
        error(f, VorbisError::InvalidSetup);
        return None;
    }
    let part_size = get_field(f, 24, Ghost(p), Ghost(pos), Ghost(t)) + 1;
    proof { pos = 88; }
    let classifications = (get_field(f, 6, Ghost(p), Ghost(pos), Ghost(t)) + 1) as u8;
    proof { pos = 94; }
    let classbook = get_field(f, 8, Ghost(p), Ghost(pos), Ghost(t)) as u8;
    proof { pos = 102; }
    if classbook as usize >= codebooks.len() {
        error(f, VorbisError::InvalidSetup);
        return None;
    }
    let mut cascade: Vec<u8> = Vec::new();
    let mut j: u8 = 0;
    while j < classifications
        invariant
            f.wf(),
            f.same_setup(&*old(f)),
            j <= classifications <= 64,
            cascade@.len() == j,
            p == page_bits(*old(f)),
            t == bits_in_page(*old(f)),
            exact == (0 <= old(f).valid_bits && res_end(p) <= t),
            exact ==> classifications == res_classifications(p) && pos == res_cascade_at(p, j as int)
                && reading_at(*f, p, pos, t) && res_cascade_at(p, classifications as int) <= res_end(p) <= t,
            exact ==> forall|q: int| 0 <= q < j ==> #[trigger] cascade@[q] == res_cascade(p, q),
        decreases classifications - j,
    {
        proof {
            vstd::arithmetic::power2::lemma2_to64();
            if exact {
                lemma_cascade_grows(p, j + 1, classifications as int);
                assert(res_cascade_at(p, j + 1) == pos + 4
                    + (if bit_field(p, (pos + 3) as nat, 1) != 0 { 5int } else { 0int }));
            }
        }
        let ghost q = pos;
        let low_bits = get_field(f, 3, Ghost(p), Ghost(pos), Ghost(t)) as u8;
        proof { pos = pos + 3; }
        let mut high_bits: u8 = 0;
        if get_field(f, 1, Ghost(p), Ghost(pos), Ghost(t)) != 0 {
            proof { pos = pos + 1; }
            high_bits = get_field(f, 5, Ghost(p), Ghost(pos), Ghost(t)) as u8;
            proof { pos = pos + 5; }
        } else {
            proof { pos = pos + 1; }
        }
        cascade.push(high_bits * 8 + low_bits);
        proof {
            if exact {
                assert(cascade@[j as int] == res_cascade(p, j as int));
            }
        }
        j = j + 1;
    }
    let ghost books_at = pos;
    let mut residue_books: Vec<Vec<i16>> = Vec::new();
    let mut j: usize = 0;
    while j < classifications as usize
        invariant
            f.wf(),
            f.same_setup(&*old(f)),
            j <= classifications <= 64,
            cascade@.len() == classifications,
            1 <= codebooks@.len() <= 256,
            residue_books@.len() == j,
            forall|q: int| 0 <= q < j ==> (#[trigger] residue_books@[q])@.len() == 8,
            forall|q: int, k: int| #![trigger residue_books@[q]@[k]] 0 <= q < j && 0 <= k < 8
                ==> -1 <= residue_books@[q]@[k] < codebooks@.len(),
            p == page_bits(*old(f)),
            t == bits_in_page(*old(f)),
            exact == (0 <= old(f).valid_bits && res_end(p) <= t),
            exact ==> classifications == res_classifications(p) && books_at == res_cascade_at(p, classifications as int)
                && pos == books_at + 8 * res_books_before(p, j as int, 0) && reading_at(*f, p, pos, t) && res_end(p) <= t,
            exact ==> forall|q: int| 0 <= q < classifications ==> #[trigger] cascade@[q] == res_cascade(p, q),
            exact ==> forall|q: int, k: int| 0 <= q < j && 0 <= k < 8 ==> #[trigger] residue_books@[q]@[k] == res_book(p, q, k),
        decreases classifications - j,
    {
        let mut books: Vec<i16> = Vec::new();
        let mut k: u8 = 0;
        while k < 8
            invariant
                f.wf(),
                f.same_setup(&*old(f)),
                k <= 8,
                j < cascade@.len(),
                j < classifications,
                1 <= codebooks@.len() <= 256,
                books@.len() == k,
                forall|q: int| 0 <= q < k ==> -1 <= #[trigger] books@[q] < codebooks@.len(),
                p == page_bits(*old(f)),
                t == bits_in_page(*old(f)),
                exact == (0 <= old(f).valid_bits && res_end(p) <= t),
                exact ==> classifications == res_classifications(p) && books_at == res_cascade_at(p, classifications as int)
                    && pos == books_at + 8 * res_books_before(p, j as int, k as int) && reading_at(*f, p, pos, t) && res_end(p) <= t,
                exact ==> forall|q: int| 0 <= q < classifications ==> #[trigger] cascade@[q] == res_cascade(p, q),
                exact ==> forall|q: int| 0 <= q < k ==> #[trigger] books@[q] == res_book(p, j as int, q),
            decreases 8 - k,
        {
            proof {
                if exact {
                    lemma_books_grow(p, j as int, k as int, classifications as int);
                    assert(cascade@[j as int] == res_cascade(p, j as int));
                }
            }
            if (cascade[j] & (1u8 << k)) != 0 {
                proof { vstd::arithmetic::power2::lemma2_to64(); }
                let b = get_field(f, 8, Ghost(p), Ghost(pos), Ghost(t)) as i16;
                proof {
                    pos = pos + 8;
                    if exact {
                        assert(res_has_book(p, j as int, k as int));
                        assert(b as int == res_book(p, j as int, k as int));
                    }
                }
                if b as usize >= codebooks.len() {
                    error(f, VorbisError::InvalidSetup);
                    return None;
                }
                books.push(b);
            } else {
                books.push(-1);
                proof {
                    if exact {
                        assert(!res_has_book(p, j as int, k as int));
                    }
                }
            }
            k = k + 1;
        }
        residue_books.push(books);
        proof {
            assert(residue_books@[j as int] == books);
            if exact {
                assert(res_books_before(p, j + 1, 0) == res_books_before(p, j as int, 8));
            }
        }
        j = j + 1;
    }
    proof {
        if exact {
            assert forall|q: int, k: int| 0 <= q < res_classifications(p) && 0 <= k < 8 && res_has_book(p, q, k)
                implies #[trigger] res_book(p, q, k) < codebooks@.len() by {
                assert(residue_books@[q]@[k] == res_book(p, q, k));
            }
        }
    }
    let cb = &codebooks[classbook as usize];
    let classdata = compute_classdata(cb.entries, cb.dimensions, classifications);
    Some((rtype, Residue { begin, end, part_size, classifications, classbook, classdata, residue_books }))
}

/// A mapping that decoding can follow: a coupling pair and a submap for
/// each channel, and floors and residues within their tables.
pub open spec fn mapping_ok(m: Mapping, channels: int, floor_count: int, residue_count: int) -> bool {
    &&& m.chan@.len() == channels
    &&& 1 <= m.submaps <= 16
    &&& m.submap_floor@.len() == m.submaps
    &&& m.submap_residue@.len() == m.submaps
    &&& m.coupling_steps <= channels
    &&& forall|k: int| 0 <= k < m.coupling_steps ==> (#[trigger] m.chan@[k]).magnitude < channels
        && m.chan@[k].angle < channels && m.chan@[k].magnitude != m.chan@[k].angle
    &&& forall|k: int| 0 <= k < channels ==> (#[trigger] m.chan@[k]).mux < m.submaps
    &&& forall|j: int| 0 <= j < m.submaps ==> (#[trigger] m.submap_floor@[j] as int) < floor_count
    &&& forall|j: int| 0 <= j < m.submaps ==> (#[trigger] m.submap_residue@[j] as int) < residue_count
}

// A mapping in its bits `p`, first bit lowest: a 16-bit type; a flag and,
// when set, 4 bits of the submap count less one; a flag and, when set, 8
// bits of the coupling steps less one; for each step a magnitude and an
// angle channel of `pb` bits each; 2 reserved bits; when there is more than
// one submap, a 4-bit submap for each channel; and for each submap 8 unused
// bits, an 8-bit floor and an 8-bit residue.

/// The submap count of the mapping in the bits `p`.
pub open spec fn map_submaps(p: int) -> int {
    if bit_field(p, 16, 1) != 0 { bit_field(p, 17, 4) + 1 } else { 1 }
}

/// Where the coupling flag of the mapping in the bits `p` lies.
pub open spec fn map_coupling_at(p: int) -> int {
    if bit_field(p, 16, 1) != 0 { 21 } else { 17 }
}

/// The coupling steps of the mapping in the bits `p`.
pub open spec fn map_steps(p: int) -> int {
    if bit_field(p, map_coupling_at(p) as nat, 1) != 0 { bit_field(p, (map_coupling_at(p) + 1) as nat, 8) + 1 } else { 0 }
}

/// Where the coupling pairs of the mapping in the bits `p` begin.
pub open spec fn map_pairs_at(p: int) -> int {
    map_coupling_at(p) + 1 + (if bit_field(p, map_coupling_at(p) as nat, 1) != 0 { 8int } else { 0int })
}

/// Where coupling step `k` lies.
pub open spec fn map_pair_at(p: int, pb: int, k: int) -> int {
    map_pairs_at(p) + 2 * pb * k
}

/// The magnitude channel of coupling step `k`.
pub open spec fn map_magnitude(p: int, pb: int, k: int) -> int {
    bit_field(p, map_pair_at(p, pb, k) as nat, pb as nat)
}

/// The angle channel of coupling step `k`.
pub open spec fn map_angle(p: int, pb: int, k: int) -> int {
    bit_field(p, (map_pair_at(p, pb, k) + pb) as nat, pb as nat)
}

/// Where the reserved bits of the mapping in the bits `p` lie.
pub open spec fn map_reserved_at(p: int, pb: int) -> int {
    map_pair_at(p, pb, map_steps(p))
}

/// Each coupling step takes `2 * pb` bits.
proof fn lemma_pair_step(p: int, pb: int, k: int, steps: int)
    requires
        0 <= pb,
        0 <= k < steps,
    ensures
        map_pair_at(p, pb, k + 1) == map_pair_at(p, pb, k) + 2 * pb,
        map_pair_at(p, pb, k + 1) <= map_pair_at(p, pb, steps),
        map_pairs_at(p) <= map_pair_at(p, pb, k),
{
    assert(2 * pb * (k + 1) == 2 * pb * k + 2 * pb) by (nonlinear_arith);
    assert(2 * pb * (k + 1) <= 2 * pb * steps) by (nonlinear_arith) requires 0 <= pb, k + 1 <= steps;
    assert(0 <= 2 * pb * k) by (nonlinear_arith) requires 0 <= pb, 0 <= k;
}

/// The coupling steps lie after where they begin.
proof fn lemma_pair_step_end(p: int, pb: int, steps: int)
    requires
        0 <= pb,
        0 <= steps,
    ensures
        map_pairs_at(p) <= map_pair_at(p, pb, steps),
{
    assert(0 <= 2 * pb * steps) by (nonlinear_arith) requires 0 <= pb, 0 <= steps;
}

/// The submap of channel `k`, when the mapping has more than one.
pub open spec fn map_mux(p: int, pb: int, k: int) -> int {
    bit_field(p, (map_reserved_at(p, pb) + 2 + 4 * k) as nat, 4)
}

/// Where the submaps' floors and residues begin.
pub open spec fn map_submap_at(p: int, pb: int, channels: int) -> int {
    map_reserved_at(p, pb) + 2 + (if map_submaps(p) > 1 { 4 * channels } else { 0 })
}

/// The floor of submap `j`.
pub open spec fn map_floor(p: int, pb: int, channels: int, j: int) -> int {
    bit_field(p, (map_submap_at(p, pb, channels) + 24 * j + 8) as nat, 8)
}

/// The residue of submap `j`.
pub open spec fn map_residue(p: int, pb: int, channels: int, j: int) -> int {
    bit_field(p, (map_submap_at(p, pb, channels) + 24 * j + 16) as nat, 8)
}

/// Where the mapping in the bits `p` ends.
pub open spec fn map_end(p: int, pb: int, channels: int) -> int {
    map_submap_at(p, pb, channels) + 24 * map_submaps(p)
}

/// The mapping in the bits `p` is one that decoding accepts.
pub open spec fn mapping_bits_ok(p: int, pb: int, channels: int, floor_count: int, residue_count: int) -> bool {
    &&& bit_field(p, 0, 16) == 0
    &&& map_steps(p) <= channels
    &&& forall|k: int| 0 <= k < map_steps(p) ==> #[trigger] map_magnitude(p, pb, k) < channels
        && map_angle(p, pb, k) < channels && map_magnitude(p, pb, k) != map_angle(p, pb, k)
    &&& bit_field(p, map_reserved_at(p, pb) as nat, 2) == 0
    &&& map_submaps(p) > 1 ==> forall|k: int| 0 <= k < channels ==> #[trigger] map_mux(p, pb, k) < map_submaps(p)
    &&& forall|j: int| 0 <= j < map_submaps(p) ==> #[trigger] map_floor(p, pb, channels, j) < floor_count
        && map_residue(p, pb, channels, j) < residue_count
}

/// `m` holds the mapping in the bits `p`.
pub open spec fn mapping_read(m: Mapping, p: int, pb: int, channels: int) -> bool {
    &&& m.coupling_steps == map_steps(p)
    &&& m.submaps == map_submaps(p)
    &&& m.chan@.len() == channels
    &&& forall|k: int| 0 <= k < map_steps(p) ==> (#[trigger] m.chan@[k]).magnitude == map_magnitude(p, pb, k)
        && m.chan@[k].angle == map_angle(p, pb, k)
    &&& forall|k: int| map_steps(p) <= k < channels ==> (#[trigger] m.chan@[k]).magnitude == 0 && m.chan@[k].angle == 0
    &&& forall|k: int| 0 <= k < channels ==> (#[trigger] m.chan@[k]).mux
        == (if map_submaps(p) > 1 { map_mux(p, pb, k) } else { 0 })
    &&& m.submap_floor@.len() == map_submaps(p)
    &&& m.submap_residue@.len() == map_submaps(p)
    &&& forall|j: int| 0 <= j < map_submaps(p) ==> #[trigger] m.submap_floor@[j] == map_floor(p, pb, channels, j)
        && m.submap_residue@[j] == map_residue(p, pb, channels, j)
}

/// Reads the coupling steps of a mapping: a magnitude and an angle channel
/// of `bits` bits each per step, which must differ and name channels.
fn read_couplings(f: &mut Vorbis, channels: i32, steps: u16, bits: i32, Ghost(p): Ghost<int>, Ghost(t): Ghost<int>)
    -> (r: Option<Vec<MappingChannel>>)
    requires
        old(f).wf(),
        1 <= channels <= 16,
        steps <= channels,
        0 <= bits <= 4,
    ensures
        final(f).wf(),
        final(f).same_setup(&*old(f)),
        r is None ==> final(f).error == VorbisError::InvalidSetup,
        r matches Some(chan) ==> {
            &&& chan@.len() == channels
            &&& forall|k: int| 0 <= k < steps ==> (#[trigger] chan@[k]).magnitude < channels
                && chan@[k].angle < channels && chan@[k].magnitude != chan@[k].angle
            &&& forall|k: int| steps <= k < channels ==> (#[trigger] chan@[k]).magnitude == 0 && chan@[k].angle == 0
            &&& forall|k: int| 0 <= k < channels ==> (#[trigger] chan@[k]).mux == 0
        },
        reading_at(*old(f), p, map_pairs_at(p), t) && steps == map_steps(p) && map_reserved_at(p, bits as int) <= t ==> {
            &&& r is Some <==> forall|k: int| 0 <= k < map_steps(p) ==> #[trigger] map_magnitude(p, bits as int, k) < channels
                && map_angle(p, bits as int, k) < channels && map_magnitude(p, bits as int, k) != map_angle(p, bits as int, k)
            &&& r matches Some(chan) ==> reading_at(*final(f), p, map_reserved_at(p, bits as int), t)
                && forall|k: int| 0 <= k < steps ==> (#[trigger] chan@[k]).magnitude == map_magnitude(p, bits as int, k)
                    && chan@[k].angle == map_angle(p, bits as int, k)
        },
{
    let ghost pb = bits as int;
    let ghost exact = reading_at(*f, p, map_pairs_at(p), t) && steps == map_steps(p) && map_reserved_at(p, pb) <= t;
    let ghost mut pos: int = map_pairs_at(p);
    let mut chan: Vec<MappingChannel> = filled(MappingChannel { magnitude: 0, angle: 0, mux: 0 }, channels as usize);
    let mut k: usize = 0;
    while k < steps as usize
        invariant
            f.wf(),
            f.same_setup(&*old(f)),
            k <= steps <= channels <= 16,
            0 <= bits <= 4,
            pb == bits,
            chan@.len() == channels,
            exact == (reading_at(*old(f), p, map_pairs_at(p), t) && steps == map_steps(p) && map_reserved_at(p, pb) <= t),
            forall|q: int| 0 <= q < k ==> (#[trigger] chan@[q]).magnitude < channels
                && chan@[q].angle < channels && chan@[q].magnitude != chan@[q].angle,
            forall|q: int| k <= q < channels ==> (#[trigger] chan@[q]).magnitude == 0 && chan@[q].angle == 0,
            forall|q: int| 0 <= q < channels ==> (#[trigger] chan@[q]).mux == 0,
            exact ==> pos == map_pair_at(p, pb, k as int) && reading_at(*f, p, pos, t),
            exact ==> forall|q: int| 0 <= q < k ==> (#[trigger] chan@[q]).magnitude == map_magnitude(p, pb, q)
                && chan@[q].angle == map_angle(p, pb, q),
        decreases steps - k,
    {
        proof {
            if exact {
                lemma_pair_step(p, pb, k as int, steps as int);
            }
            vstd::arithmetic::power2::lemma2_to64();
            if bits < 4 {
                vstd::arithmetic::power2::lemma_pow2_strictly_increases(bits as nat, 4);
            }
        }
        let magnitude = get_field(f, bits, Ghost(p), Ghost(pos), Ghost(t)) as u8;
        proof { pos = pos + pb; }
        let angle = get_field(f, bits, Ghost(p), Ghost(pos), Ghost(t)) as u8;
        proof {
            pos = pos + pb;
            if exact {
                assert(magnitude as int == map_magnitude(p, pb, k as int));
                assert(angle as int == map_angle(p, pb, k as int));
            }
        }
        chan.set(k, MappingChannel { magnitude, angle, mux: 0 });
        if magnitude as i32 >= channels || angle as i32 >= channels || magnitude == angle {
            error(f, VorbisError::InvalidSetup);
            return None;
        }
        k = k + 1;
    }
    proof {
        if exact {
            assert forall|q: int| 0 <= q < map_steps(p) implies #[trigger] map_magnitude(p, pb, q) < channels
                && map_angle(p, pb, q) < channels && map_magnitude(p, pb, q) != map_angle(p, pb, q) by {
                assert(chan@[q].magnitude == map_magnitude(p, pb, q));
            }
        }
    }
    Some(chan)
}

/// Reads the submap of each channel, when there is more than one submap.
fn read_muxes(f: &mut Vorbis, chan: &mut Vec<MappingChannel>, submaps: u8, bits: i32, Ghost(p): Ghost<int>, Ghost(t): Ghost<int>)
    -> (r: bool)
    requires
        old(f).wf(),
        1 <= submaps <= 16,
        old(chan)@.len() <= 16,
        0 <= bits <= 4,
    ensures
        final(f).wf(),
        final(f).same_setup(&*old(f)),
        !r ==> final(f).error == VorbisError::InvalidSetup,
        final(chan)@.len() == old(chan)@.len(),
        forall|k: int| 0 <= k < old(chan)@.len() ==> (#[trigger] final(chan)@[k]).magnitude == old(chan)@[k].magnitude
            && final(chan)@[k].angle == old(chan)@[k].angle,
        r ==> forall|k: int| 0 <= k < old(chan)@.len() ==> (#[trigger] final(chan)@[k]).mux < submaps,
        reading_at(*old(f), p, map_reserved_at(p, bits as int) + 2, t) && submaps == map_submaps(p)
            && map_submap_at(p, bits as int, old(chan)@.len() as int) <= t ==> {
            &&& r <==> (submaps > 1 ==> forall|k: int| 0 <= k < old(chan)@.len() ==> #[trigger] map_mux(p, bits as int, k) < map_submaps(p))
            &&& r ==> reading_at(*final(f), p, map_submap_at(p, bits as int, old(chan)@.len() as int), t)
                && forall|k: int| 0 <= k < old(chan)@.len() ==> (#[trigger] final(chan)@[k]).mux
                    == (if submaps > 1 { map_mux(p, bits as int, k) } else { 0 })
        },
{
    let ghost pb = bits as int;
    let ghost n = chan@.len() as int;
    let ghost exact = reading_at(*f, p, map_reserved_at(p, pb) + 2, t) && submaps == map_submaps(p) && map_submap_at(p, pb, n) <= t;
    let ghost mut pos: int = map_reserved_at(p, pb) + 2;
    let mut j: usize = 0;
    while j < chan.len()
        invariant
            f.wf(),
            f.same_setup(&*old(f)),
            j <= chan@.len() == n <= 16,
            n == old(chan)@.len(),
            1 <= submaps <= 16,
            pb == bits,
            exact == (reading_at(*old(f), p, map_reserved_at(p, pb) + 2, t) && submaps == map_submaps(p) && map_submap_at(p, pb, n) <= t),
            forall|q: int| 0 <= q < n ==> (#[trigger] chan@[q]).magnitude == old(chan)@[q].magnitude
                && chan@[q].angle == old(chan)@[q].angle,
            forall|q: int| 0 <= q < j ==> (#[trigger] chan@[q]).mux < submaps,
            exact ==> reading_at(*f, p, pos, t) && pos == map_reserved_at(p, pb) + 2 + (if submaps > 1 { 4 * j } else { 0 }),
            exact ==> forall|q: int| 0 <= q < j ==> (#[trigger] chan@[q]).mux == (if submaps > 1 { map_mux(p, pb, q) } else { 0 }),
        decreases n - j,
    {
        let mut mux: u8 = 0;
        if submaps > 1 {
            proof { vstd::arithmetic::power2::lemma2_to64(); }
            mux = get_field(f, 4, Ghost(p), Ghost(pos), Ghost(t)) as u8;
            proof {
                pos = pos + 4;
                if exact {
                    assert(mux as int == map_mux(p, pb, j as int));
                }
            }
            if mux >= submaps {
                error(f, VorbisError::InvalidSetup);
                return false;
            }
        }
        let old_c = chan[j];
        chan.set(j, MappingChannel { magnitude: old_c.magnitude, angle: old_c.angle, mux });
        j = j + 1;
    }
    proof {
        if exact && submaps > 1 {
            assert forall|k: int| 0 <= k < n implies #[trigger] map_mux(p, pb, k) < map_submaps(p) by {
                assert(chan@[k].mux == map_mux(p, pb, k));
            }
        }
    }
    true
}

/// Reads the floor and residue of each submap.
fn read_submaps(f: &mut Vorbis, submaps: u8, floor_count: i32, residue_count: i32, Ghost(p): Ghost<int>,
    Ghost(pb): Ghost<int>, Ghost(channels): Ghost<int>, Ghost(t): Ghost<int>) -> (r: Option<(Vec<u8>, Vec<u8>)>)
    requires
        old(f).wf(),
        1 <= submaps <= 16,
    ensures
        final(f).wf(),
        final(f).same_setup(&*old(f)),
        r is None ==> final(f).error == VorbisError::InvalidSetup,
        r matches Some((fl, re)) ==> fl@.len() == submaps && re@.len() == submaps
            && (forall|j: int| 0 <= j < submaps ==> (#[trigger] fl@[j] as int) < floor_count)
            && (forall|j: int| 0 <= j < submaps ==> (#[trigger] re@[j] as int) < residue_count),
        reading_at(*old(f), p, map_submap_at(p, pb, channels), t) && submaps == map_submaps(p) && map_end(p, pb, channels) <= t ==> {
            &&& r is Some <==> forall|j: int| 0 <= j < map_submaps(p) ==> #[trigger] map_floor(p, pb, channels, j) < floor_count
                && map_residue(p, pb, channels, j) < residue_count
            &&& r matches Some((fl, re)) ==> forall|j: int| 0 <= j < submaps ==> #[trigger] fl@[j] == map_floor(p, pb, channels, j)
                && re@[j] == map_residue(p, pb, channels, j)
        },
{
    let ghost exact = reading_at(*f, p, map_submap_at(p, pb, channels), t) && submaps == map_submaps(p) && map_end(p, pb, channels) <= t;
    let ghost mut pos: int = map_submap_at(p, pb, channels);
    let mut submap_floor: Vec<u8> = Vec::new();
    let mut submap_residue: Vec<u8> = Vec::new();
    let mut j: u8 = 0;
    while j < submaps
        invariant
            f.wf(),
            f.same_setup(&*old(f)),
            j <= submaps <= 16,
            submap_floor@.len() == j,
            submap_residue@.len() == j,
            forall|q: int| 0 <= q < j ==> (#[trigger] submap_floor@[q] as int) < floor_count,
            forall|q: int| 0 <= q < j ==> (#[trigger] submap_residue@[q] as int) < residue_count,
            exact == (reading_at(*old(f), p, map_submap_at(p, pb, channels), t) && submaps == map_submaps(p) && map_end(p, pb, channels) <= t),
            exact ==> reading_at(*f, p, pos, t) && pos == map_submap_at(p, pb, channels) + 24 * j,
            exact ==> forall|q: int| 0 <= q < j ==> #[trigger] submap_floor@[q] == map_floor(p, pb, channels, q)
                && submap_residue@[q] == map_residue(p, pb, channels, q),
        decreases submaps - j,
    {
        proof { vstd::arithmetic::power2::lemma2_to64(); }
        get_field(f, 8, Ghost(p), Ghost(pos), Ghost(t));
        proof { pos = pos + 8; }
        let fl = get_field(f, 8, Ghost(p), Ghost(pos), Ghost(t)) as u8;
        proof { pos = pos + 8; }
        let re = get_field(f, 8, Ghost(p), Ghost(pos), Ghost(t)) as u8;
        proof {
            pos = pos + 8;
            if exact {
                assert(fl as int == map_floor(p, pb, channels, j as int));
                assert(re as int == map_residue(p, pb, channels, j as int));
            }
        }
        if fl as i32 >= floor_count || re as i32 >= residue_count {
            error(f, VorbisError::InvalidSetup);
            return None;
        }
        submap_floor.push(fl);
        submap_residue.push(re);
        j = j + 1;
    }
    proof {
        if exact {
            assert forall|q: int| 0 <= q < map_submaps(p) implies #[trigger] map_floor(p, pb, channels, q) < floor_count
                && map_residue(p, pb, channels, q) < residue_count by {
                assert(submap_floor@[q] as int == map_floor(p, pb, channels, q));
            }
        }
    }
    Some((submap_floor, submap_residue))
}

/// Reads one mapping. More coupling steps than channels are refused.
#[verifier::spinoff_prover]
pub fn parse_mapping(f: &mut Vorbis, channels: i32, floor_count: i32, residue_count: i32) -> (r: Option<Mapping>)
    requires
        old(f).wf(),
        1 <= channels <= 16,
    ensures
        final(f).wf(),
        final(f).same_setup(&*old(f)),
        r is Some ==> mapping_ok(r->0, channels as int, floor_count as int, residue_count as int),
        r is None ==> final(f).error == VorbisError::InvalidSetup,
        0 <= old(f).valid_bits && map_end(page_bits(*old(f)), ilog_spec(channels - 1), channels as int) <= bits_in_page(*old(f))
            ==> {
            let p = page_bits(*old(f));
            let pb = ilog_spec(channels - 1);
            &&& r is Some <==> mapping_bits_ok(p, pb, channels as int, floor_count as int, residue_count as int)
            &&& r is Some ==> mapping_read(r->0, p, pb, channels as int)
        },
{
    proof { vstd::arithmetic::power2::lemma2_to64(); }
    let bits = ilog(channels - 1);
    proof {
        if bits > 5 {
            vstd::arithmetic::power2::lemma_pow2_strictly_increases(4, (bits - 1) as nat);
        }
    }
    assert(bits <= 4);
    let ghost p = page_bits(*f);
    let ghost pb = bits as int;
    let ghost t = bits_in_page(*f);
    let ghost exact = 0 <= f.valid_bits && map_end(p, pb, channels as int) <= t;
    let ghost mut pos: int = 0;
    proof {
        lemma_page_bits_nonneg(*f);
        assert(p / pow2(0) as int == p);
        if exact {
            lemma_pair_step_end(p, pb, map_steps(p));
        }
    }
    let mapping_type = get_field(f, 16, Ghost(p), Ghost(pos), Ghost(t));
    proof { pos = 16; }
    if mapping_type != 0 {
        error(f, VorbisError::InvalidSetup);
        return None;
    }
    let mut submaps: u8 = 1;
    if get_field(f, 1, Ghost(p), Ghost(pos), Ghost(t)) != 0 {
        proof { pos = 17; }
        submaps = (get_field(f, 4, Ghost(p), Ghost(pos), Ghost(t)) + 1) as u8;
        proof { pos = 21; }
    } else {
        proof { pos = 17; }
    }
    assert(exact ==> pos == map_coupling_at(p) && submaps == map_submaps(p) && reading_at(*f, p, pos, t));
    let mut coupling_steps: u16 = 0;
    if get_field(f, 1, Ghost(p), Ghost(pos), Ghost(t)) != 0 {
        proof { pos = pos + 1; }
        coupling_steps = (get_field(f, 8, Ghost(p), Ghost(pos), Ghost(t)) + 1) as u16;
        proof { pos = pos + 8; }
        if coupling_steps as i32 > channels {
            error(f, VorbisError::InvalidSetup);
            return None;
        }
    } else {
        proof { pos = pos + 1; }
    }
    assert(exact ==> pos == map_pairs_at(p) && coupling_steps == map_steps(p) && reading_at(*f, p, pos, t));
    let mut chan = match read_couplings(f, channels, coupling_steps, bits, Ghost(p), Ghost(t)) {
        None => { return None; },
        Some(c) => c,
    };
    proof { pos = map_reserved_at(p, pb); }
    if get_field(f, 2, Ghost(p), Ghost(pos), Ghost(t)) != 0 {
        error(f, VorbisError::InvalidSetup);
        return None;
    }
    proof { pos = pos + 2; }
    let ghost coupled = chan@;
    if !read_muxes(f, &mut chan, submaps, bits, Ghost(p), Ghost(t)) {
        return None;
    }
    let (submap_floor, submap_residue) = match read_submaps(f, submaps, floor_count, residue_count, Ghost(p), Ghost(pb),
        Ghost(channels as int), Ghost(t)) {
        None => { return None; },
        Some(x) => x,
    };
    let m = Mapping { coupling_steps, chan, submaps, submap_floor, submap_residue };
    proof {
        if exact {
            assert(mapping_read(m, p, pb, channels as int));
            assert(mapping_bits_ok(p, pb, channels as int, floor_count as int, residue_count as int));
        }
    }
    Some(m)
}

/// A mode that decoding can follow.
pub open spec fn mode_ok(m: Mode, mapping_count: int) -> bool {
    &&& m.blockflag <= 1
    &&& m.windowtype == 0
    &&& m.transformtype == 0
    &&& (m.mapping as int) < mapping_count
}

/// Reads one mode.
pub fn parse_mode(f: &mut Vorbis, mapping_count: i32) -> (r: Option<Mode>)
    requires
        old(f).wf(),
    ensures
        final(f).wf(),
        final(f).same_setup(&*old(f)),
        r is Some ==> mode_ok(r->0, mapping_count as int),
        r is None ==> final(f).error == VorbisError::InvalidSetup,
        0 <= old(f).valid_bits && 41 <= bits_in_page(*old(f)) ==> {
            let p = page_bits(*old(f));
            &&& r is Some <==> bit_field(p, 1, 16) == 0 && bit_field(p, 17, 16) == 0 && bit_field(p, 33, 8) < mapping_count
            &&& r is Some ==> r->0 == (Mode { blockflag: bit_field(p, 0, 1) as u8, windowtype: 0, transformtype: 0,
                mapping: bit_field(p, 33, 8) as u8 })
            &&& page_bits(*final(f)) == p / pow2(41) as int
            &&& bits_in_page(*final(f)) == bits_in_page(*old(f)) - 41
            &&& final(f).valid_bits >= 0
        },
{
    proof { vstd::arithmetic::power2::lemma2_to64(); }
    let ghost f0 = *f;
    let ghost p = page_bits(*f);
    proof {
        lemma_page_bits_nonneg(f0);
        lemma_bits_after(p, 0, 1);
        lemma_bits_after(p, 1, 16);
        lemma_bits_after(p, 17, 16);
        lemma_bits_after(p, 33, 8);
    }
    let blockflag = get_bits(f, 1) as u8;
    let windowtype = get_bits(f, 16) as u16;
    let transformtype = get_bits(f, 16) as u16;
    let mapping = get_bits(f, 8) as u8;
    if windowtype != 0 || transformtype != 0 || mapping as i32 >= mapping_count {
        error(f, VorbisError::InvalidSetup);
        return None;
    }
    Some(Mode { blockflag, mapping, windowtype, transformtype })
}

/// `i`, or `n` when `i` lies beyond it.
pub open spec fn clamp(i: int, n: int) -> int {
    if i <= n { i } else { n }
}

/// The stream holds at `p` a valid first page: a page that begins the
/// stream, neither continued nor last, made of one 30-byte segment holding
/// the identification packet: type 1, "vorbis", version 0, 1 to 16
/// channels, a nonzero sample rate, block-size exponents from 6 to 13 with
/// the short one not above the long one, and the framing bit.
pub open spec fn ident_header_ok(d: Seq<u8>, p: int) -> bool {
    let flag = byte_at(d, p + 5);
    let q = p + 28;
    let bs = byte_at(d, q + 28);
    &&& byte_at(d, p) == 0x4f && byte_at(d, p + 1) == 0x67 && byte_at(d, p + 2) == 0x67 && byte_at(d, p + 3) == 0x53
    &&& byte_at(d, p + 4) == 0
    &&& flag & 2 != 0 && flag & 4 == 0 && flag & 1 == 0
    &&& byte_at(d, p + 26) == 1 && byte_at(d, p + 27) == 30
    &&& q + 30 <= d.len()
    &&& byte_at(d, q) == PACKET_ID
    &&& d.subrange(q + 1, q + 7) == seq![118u8, 111u8, 114u8, 98u8, 105u8, 115u8]
    &&& le32_at(d, q + 7) == 0
    &&& 1 <= byte_at(d, q + 11) <= 16
    &&& le32_at(d, q + 12) != 0
    &&& 6 <= bs & 15 <= 13 && 6 <= bs >> 4 <= 13 && bs & 15 <= bs >> 4
    &&& byte_at(d, q + 29) & 1 == 1
}

/// The next byte of the stream (0 past its end), seen by position alone.
fn stream_byte(f: &mut Vorbis) -> (r: u8)
    requires
        old(f).wf(),
    ensures
        final(f).wf(),
        final(f).same_setup(&*old(f)),
        final(f).data == old(f).data,
        r == byte_at(old(f).data@, old(f).pos as int),
        final(f).pos == clamp(old(f).pos + 1, old(f).data@.len() as int),
        final(f).error == old(f).error,
{
    get8(f)
}

/// The next little-endian 32-bit value of the stream, seen by position alone.
fn stream_u32(f: &mut Vorbis) -> (r: u32)
    requires
        old(f).wf(),
    ensures
        final(f).wf(),
        final(f).same_setup(&*old(f)),
        final(f).data == old(f).data,
        r == le32_at(old(f).data@, old(f).pos as int),
        final(f).pos == clamp(old(f).pos + 4, old(f).data@.len() as int),
        final(f).error == old(f).error,
{
    get32(f)
}

/// Past the end of the stream every 32-bit value reads 0.
pub(crate) proof fn lemma_le32_past_end(d: Seq<u8>, i: int, j: int)
    requires
        i >= d.len(),
        j >= d.len(),
    ensures
        le32_at(d, i) == le32_at(d, j),
{
}

/// The error with which the identification packet at `q` of `d` is
/// refused, checked in order: its type byte, its length up to the magic
/// word, the magic word "vorbis", the version, the channel count (none, or
/// more than the decoder supports), the sample rate, the two block sizes
/// (each from 64 to 8192 samples, the short not above the long) and the
/// framing bit; NoError when it is accepted.
pub open spec fn ident_packet_error(d: Seq<u8>, q: int) -> VorbisError {
    let ch = byte_at(d, q + 11);
    let bs = byte_at(d, q + 28);
    if byte_at(d, q) != PACKET_ID {
        VorbisError::InvalidFirstPage
    } else if q + 7 > d.len() {
        VorbisError::UnexpectedEof
    } else if d.subrange(q + 1, q + 7) != seq![118u8, 111u8, 114u8, 98u8, 105u8, 115u8] {
        VorbisError::InvalidFirstPage
    } else if le32_at(d, q + 7) != 0 {
        VorbisError::InvalidFirstPage
    } else if ch == 0 {
        VorbisError::InvalidFirstPage
    } else if ch > 16 {
        VorbisError::TooManyChannels
    } else if le32_at(d, q + 12) == 0 {
        VorbisError::InvalidFirstPage
    } else if !(6 <= bs & 15 <= 13 && 6 <= bs >> 4 <= 13 && bs & 15 <= bs >> 4) {
        VorbisError::InvalidSetup
    } else if byte_at(d, q + 29) & 1 == 0 {
        VorbisError::InvalidFirstPage
    } else {
        VorbisError::NoError
    }
}

/// Reads the 30 bytes of the identification packet, which begin at the
/// current position.
fn read_ident_packet(f: &mut Vorbis) -> (r: Option<(u8, u32, u8)>)
    requires
        old(f).wf(),
    ensures
        final(f).wf(),
        final(f).same_setup(&*old(f)),
        r is None ==> final(f).error != VorbisError::NoError,
        r is None <==> ident_packet_error(old(f).data@, old(f).pos as int) != VorbisError::NoError,
        r is None ==> final(f).error == ident_packet_error(old(f).data@, old(f).pos as int),
        r is Some ==> final(f).pos == old(f).pos + 30 && final(f).error == old(f).error,
        r matches Some((ch, rate, bs)) ==> {
            let d = old(f).data@;
            let q = old(f).pos as int;
            &&& q + 30 <= d.len()
            &&& byte_at(d, q) == PACKET_ID
            &&& d.subrange(q + 1, q + 7) == seq![118u8, 111u8, 114u8, 98u8, 105u8, 115u8]
            &&& le32_at(d, q + 7) == 0
            &&& 1 <= ch <= 16 && ch == byte_at(d, q + 11)
            &&& rate != 0 && rate == le32_at(d, q + 12)
            &&& bs == byte_at(d, q + 28)
            &&& 6 <= bs & 15 <= 13 && 6 <= bs >> 4 <= 13 && bs & 15 <= bs >> 4
            &&& byte_at(d, q + 29) & 1 == 1
        },
{
    let ghost d = f.data@;
    let ghost q = f.pos as int;
    let ghost len = d.len() as int;
    if stream_byte(f) != PACKET_ID {
        error(f, VorbisError::InvalidFirstPage);
        return None;
    }
    let header = match getn(f, 6) {
        None => {
            error(f, VorbisError::UnexpectedEof);
            return None;
        },
        Some(h) => h,
    };
    if !vorbis_validate(header.as_slice()) {
        error(f, VorbisError::InvalidFirstPage);
        return None;
    }
    if stream_u32(f) != 0 {
        error(f, VorbisError::InvalidFirstPage);
        return None;
    }
    let channels = stream_byte(f);
    if channels == 0 {
        error(f, VorbisError::InvalidFirstPage);
        return None;
    }
    if channels > 16 {
        error(f, VorbisError::TooManyChannels);
        return None;
    }
    let ghost p12 = f.pos as int;
    let rate = stream_u32(f);
    proof {
        if q + 12 > len {
            lemma_le32_past_end(d, p12, q + 12);
        }
    }
    if rate == 0 {
        error(f, VorbisError::InvalidFirstPage);
        return None;
    }
    stream_u32(f);
    stream_u32(f);
    stream_u32(f);
    assert(f.pos == clamp(q + 28, len));
    let bs = stream_byte(f);
    let log0 = bs & 15;
    let log1 = bs >> 4;
    if log0 < 6 || log0 > 13 || log1 < 6 || log1 > 13 || log0 > log1 {
        error(f, VorbisError::InvalidSetup);
        return None;
    }
    let ghost p29 = f.pos as int;
    assert(p29 == clamp(q + 29, len));
    let framing = stream_byte(f);
    if (framing & 1) == 0 {
        error(f, VorbisError::InvalidFirstPage);
        return None;
    }
    proof {
        assert(framing != 0 && framing & 1 == 1) by (bit_vector) requires framing & 1 != 0;
        assert(p29 < len);
        assert(p29 == q + 29);
        assert(framing == byte_at(d, q + 29));
    }
    Some((channels, rate, bs))
}

/// A page header at `p` of `d` whose segment table lies in the data.
pub open spec fn page_header_at(d: Seq<u8>, p: int) -> bool {
    &&& byte_at(d, p) == 0x4f && byte_at(d, p + 1) == 0x67 && byte_at(d, p + 2) == 0x67 && byte_at(d, p + 3) == 0x53
    &&& byte_at(d, p + 4) == 0
    &&& p + 27 + byte_at(d, p + 26) <= d.len()
}

/// The page at `p` is fit to be the first page of a stream: flagged as
/// first, neither last nor continued, with one segment of 30 bytes.
pub open spec fn first_page_fit(d: Seq<u8>, p: int) -> bool {
    let flag = byte_at(d, p + 5);
    &&& flag & 2 != 0 && flag & 4 == 0 && flag & 1 == 0
    &&& byte_at(d, p + 26) == 1 && byte_at(d, p + 27) == 30
}

/// Reads the first page and the identification packet; gives the channel
/// count, the sample rate and the block-size byte.
fn read_identification(f: &mut Vorbis) -> (r: Option<(u8, u32, u8)>)
    requires
        old(f).wf(),
    ensures
        final(f).wf(),
        final(f).same_setup(&*old(f)),
        r is None ==> final(f).error != VorbisError::NoError,
        r is Some ==> ident_header_ok(old(f).data@, old(f).pos as int),
        r matches Some((ch, rate, bs)) ==> ch == byte_at(old(f).data@, old(f).pos + 39)
            && rate == le32_at(old(f).data@, old(f).pos + 40) && bs == byte_at(old(f).data@, old(f).pos + 56),
        page_header_at(old(f).data@, old(f).pos as int) && !first_page_fit(old(f).data@, old(f).pos as int)
            ==> r is None && final(f).error == VorbisError::InvalidFirstPage,
        page_header_at(old(f).data@, old(f).pos as int) && first_page_fit(old(f).data@, old(f).pos as int) ==> {
            &&& r is None <==> ident_packet_error(old(f).data@, old(f).pos + 28) != VorbisError::NoError
            &&& r is None ==> final(f).error == ident_packet_error(old(f).data@, old(f).pos + 28)
        },
        header_cut(old(f).data@, old(f).pos as int) ==> r is None && final(f).eof,
        r is Some ==> final(f).pos == old(f).pos + 58 && final(f).error == old(f).error,
{
    let ghost d = f.data@;
    let ghost p = f.pos as int;
    if !start_page(f) {
        return None;
    }
    if (f.page_flag & PAGEFLAG_FIRST_PAGE) == 0 || (f.page_flag & PAGEFLAG_LAST_PAGE) != 0
        || (f.page_flag & PAGEFLAG_CONTINUED_PACKET) != 0 {
        error(f, VorbisError::InvalidFirstPage);
        return None;
    }
    if f.segment_count != 1 {
        error(f, VorbisError::InvalidFirstPage);
        return None;
    }
    proof {
        assert(f.segments@.subrange(0, 1)[0] == d.subrange(p + 27, p + 28)[0]);
    }
    if f.segments[0] != 30 {
        error(f, VorbisError::InvalidFirstPage);
        return None;
    }
    assert(f.pos == p + 28);
    assert(f.data@ == d);
    read_ident_packet(f)
}

/// The setup tables of a decoder are consistent: every codebook, floor,
/// residue, mapping and mode is ready for decoding and refers only to
/// entries of the tables that exist.
pub open spec fn setup_tables_ok(f: Vorbis) -> bool {
    &&& 1 <= f.codebook_count <= 256
    &&& f.codebooks@.len() == f.codebook_count
    &&& forall|i: int| 0 <= i < f.codebook_count ==> codebook_setup_ok(#[trigger] f.codebooks@[i])
    &&& 1 <= f.floor_count <= 64
    &&& f.floor_types@.len() == f.floor_count
    &&& f.floor_config@.len() == f.floor_count
    &&& forall|i: int| 0 <= i < f.floor_count ==> #[trigger] f.floor_types@[i] == 1
    &&& forall|i: int| 0 <= i < f.floor_count ==> floor1_ok((#[trigger] f.floor_config@[i]).floor1, f.codebook_count as int)
    &&& 2 <= f.longest_floorlist <= 250
    &&& forall|i: int| 0 <= i < f.floor_count ==> (#[trigger] f.floor_config@[i]).floor1.values <= f.longest_floorlist
    &&& 1 <= f.residue_count <= 64
    &&& f.residue_types@.len() == f.residue_count
    &&& f.residue_config@.len() == f.residue_count
    &&& forall|i: int| 0 <= i < f.residue_count ==> residue_ok(#[trigger] f.residue_config@[i], f.residue_types@[i], f.codebooks@)
    &&& 1 <= f.mapping_count <= 64
    &&& f.mapping@.len() == f.mapping_count
    &&& forall|i: int| 0 <= i < f.mapping_count
        ==> mapping_ok(#[trigger] f.mapping@[i], f.channels as int, f.floor_count as int, f.residue_count as int)
    &&& 1 <= f.mode_count <= 64
    &&& f.mode_config@.len() == f.mode_count
    &&& forall|i: int| 0 <= i < f.mode_count ==> mode_ok(#[trigger] f.mode_config@[i], f.mapping_count as int)
}

/// A decoder whose headers were read: the stream parameters of the
/// identification header and consistent setup tables.
pub open spec fn setup_ok(f: Vorbis) -> bool {
    &&& 1 <= f.channels <= 16
    &&& f.sample_rate != 0
    &&& 64 <= f.blocksize_0 <= f.blocksize_1 <= 8192
    &&& setup_tables_ok(f)
}

/// Reads the codebooks of the setup header.
fn read_codebooks(f: &mut Vorbis) -> (r: Option<Vec<Codebook>>)
    requires
        old(f).wf(),
    ensures
        final(f).wf(),
        final(f).same_setup(&*old(f)),
        r is None ==> final(f).error == VorbisError::InvalidSetup,
        r is Some ==> 1 <= r->0@.len() <= 256,
        r is Some ==> forall|i: int| 0 <= i < r->0@.len() ==> codebook_setup_ok(#[trigger] r->0@[i]),
{
    proof { vstd::arithmetic::power2::lemma2_to64(); }
    let count = (get_bits(f, 8) + 1) as usize;
    let mut books: Vec<Codebook> = Vec::new();
    while books.len() < count
        invariant
            f.wf(),
            f.same_setup(&*old(f)),
            1 <= count <= 256,
            books@.len() <= count,
            forall|i: int| 0 <= i < books@.len() ==> codebook_setup_ok(#[trigger] books@[i]),
        decreases count - books@.len(),
    {
        match parse_codebook(f) {
            None => { return None; },
            Some(c) => { books.push(c); },
        }
    }
    Some(books)
}

/// Reads the floors of the setup header; gives them with the most points
/// any of them has.
fn read_floors(f: &mut Vorbis, codebook_count: i32) -> (r: Option<(Vec<Floor>, i32)>)
    requires
        old(f).wf(),
        1 <= codebook_count <= 256,
    ensures
        final(f).wf(),
        final(f).same_setup(&*old(f)),
        r is None ==> final(f).error == VorbisError::InvalidSetup || final(f).error == VorbisError::FeatureNotSupported,
        r matches Some((floors, longest)) ==> {
            &&& 1 <= floors@.len() <= 64
            &&& 2 <= longest <= 250
            &&& forall|i: int| 0 <= i < floors@.len() ==> floor1_ok((#[trigger] floors@[i]).floor1, codebook_count as int)
            &&& forall|i: int| 0 <= i < floors@.len() ==> (#[trigger] floors@[i]).floor1.values <= longest
        },
{
    proof { vstd::arithmetic::power2::lemma2_to64(); }
    let count = (get_bits(f, 6) + 1) as usize;
    let mut floors: Vec<Floor> = Vec::new();
    let mut longest: i32 = 2;
    while floors.len() < count
        invariant
            f.wf(),
            f.same_setup(&*old(f)),
            1 <= count <= 64,
            1 <= codebook_count <= 256,
            floors@.len() <= count,
            2 <= longest <= 250,
            forall|i: int| 0 <= i < floors@.len() ==> floor1_ok((#[trigger] floors@[i]).floor1, codebook_count as int),
            forall|i: int| 0 <= i < floors@.len() ==> (#[trigger] floors@[i]).floor1.values <= longest,
        decreases count - floors@.len(),
    {
        match parse_floor(f, codebook_count) {
            None => { return None; },
            Some(g) => {
                if g.values > longest {
                    longest = g.values;
                }
                floors.push(Floor { floor1: g });
            },
        }
    }
    Some((floors, longest))
}

/// Reads the residues of the setup header, with their types.
fn read_residues(f: &mut Vorbis, codebooks: &Vec<Codebook>) -> (r: Option<(Vec<u16>, Vec<Residue>)>)
    requires
        old(f).wf(),
        1 <= codebooks@.len() <= 256,
        forall|i: int| 0 <= i < codebooks@.len() ==> codebook_setup_ok(#[trigger] codebooks@[i]),
    ensures
        final(f).wf(),
        final(f).same_setup(&*old(f)),
        r is None ==> final(f).error == VorbisError::InvalidSetup,
        r matches Some((types, res)) ==> {
            &&& 1 <= res@.len() <= 64
            &&& types@.len() == res@.len()
            &&& forall|i: int| 0 <= i < res@.len() ==> residue_ok(#[trigger] res@[i], types@[i], codebooks@)
        },
{
    proof { vstd::arithmetic::power2::lemma2_to64(); }
    let count = (get_bits(f, 6) + 1) as usize;
    let mut types: Vec<u16> = Vec::new();
    let mut res: Vec<Residue> = Vec::new();
    while res.len() < count
        invariant
            f.wf(),
            f.same_setup(&*old(f)),
            1 <= count <= 64,
            1 <= codebooks@.len() <= 256,
            forall|i: int| 0 <= i < codebooks@.len() ==> codebook_setup_ok(#[trigger] codebooks@[i]),
            res@.len() <= count,
            types@.len() == res@.len(),
            forall|i: int| 0 <= i < res@.len() ==> residue_ok(#[trigger] res@[i], types@[i], codebooks@),
        decreases count - res@.len(),
    {
        match parse_residue(f, codebooks) {
            None => { return None; },
            Some((t, r)) => {
                types.push(t);
                res.push(r);
            },
        }
    }
    Some((types, res))
}

/// Reads the mappings of the setup header.
fn read_mappings(f: &mut Vorbis, channels: i32, floor_count: i32, residue_count: i32) -> (r: Option<Vec<Mapping>>)
    requires
        old(f).wf(),
        1 <= channels <= 16,
    ensures
        final(f).wf(),
        final(f).same_setup(&*old(f)),
        r is None ==> final(f).error == VorbisError::InvalidSetup,
        r is Some ==> 1 <= r->0@.len() <= 64,
        r is Some ==> forall|i: int| 0 <= i < r->0@.len()
            ==> mapping_ok(#[trigger] r->0@[i], channels as int, floor_count as int, residue_count as int),
{
    proof { vstd::arithmetic::power2::lemma2_to64(); }
    let count = (get_bits(f, 6) + 1) as usize;
    let mut maps: Vec<Mapping> = Vec::new();
    while maps.len() < count
        invariant
            f.wf(),
            f.same_setup(&*old(f)),
            1 <= count <= 64,
            1 <= channels <= 16,
            maps@.len() <= count,
            forall|i: int| 0 <= i < maps@.len()
                ==> mapping_ok(#[trigger] maps@[i], channels as int, floor_count as int, residue_count as int),
        decreases count - maps@.len(),
    {
        match parse_mapping(f, channels, floor_count, residue_count) {
            None => { return None; },
            Some(m) => { maps.push(m); },
        }
    }
    Some(maps)
}

/// Reads the modes of the setup header.
/// The `i`-th mode record of a mode table whose bits are `p` (first bit
/// lowest): after the 6-bit count, 41 bits per record, a block flag, a
/// 16-bit window type, a 16-bit transform type and an 8-bit mapping.
pub open spec fn mode_record(p: int, i: int) -> Mode {
    Mode {
        blockflag: bit_field(p, (6 + 41 * i) as nat, 1) as u8,
        windowtype: 0,
        transformtype: 0,
        mapping: bit_field(p, (6 + 41 * i + 33) as nat, 8) as u8,
    }
}

/// The `i`-th mode record of `p` is one setup accepts: window and
/// transform types 0, and a mapping that exists.
pub open spec fn mode_record_ok(p: int, i: int, mapping_count: int) -> bool {
    &&& bit_field(p, (6 + 41 * i + 1) as nat, 16) == 0
    &&& bit_field(p, (6 + 41 * i + 17) as nat, 16) == 0
    &&& bit_field(p, (6 + 41 * i + 33) as nat, 8) < mapping_count
}

/// How many mode records the table with bits `p` has.
pub open spec fn mode_count_of(p: int) -> int {
    bit_field(p, 0, 6) + 1
}

/// Reads the mode table: its count, then each mode record in turn.
fn read_modes(f: &mut Vorbis, mapping_count: i32) -> (r: Option<Vec<Mode>>)
    requires
        old(f).wf(),
    ensures
        final(f).wf(),
        final(f).same_setup(&*old(f)),
        r is None ==> final(f).error == VorbisError::InvalidSetup,
        r is Some ==> 1 <= r->0@.len() <= 64,
        r is Some ==> forall|i: int| 0 <= i < r->0@.len() ==> mode_ok(#[trigger] r->0@[i], mapping_count as int),
        0 <= old(f).valid_bits && 6 + 41 * mode_count_of(page_bits(*old(f))) <= bits_in_page(*old(f)) ==> {
            let p = page_bits(*old(f));
            &&& r is Some <==> forall|i: int| 0 <= i < mode_count_of(p) ==> #[trigger] mode_record_ok(p, i, mapping_count as int)
            &&& r matches Some(ms) ==> ms@.len() == mode_count_of(p)
                && forall|i: int| 0 <= i < ms@.len() ==> #[trigger] ms@[i] == mode_record(p, i)
        },
{
    proof { vstd::arithmetic::power2::lemma2_to64(); }
    let ghost p = page_bits(*f);
    let ghost t = bits_in_page(*f);
    proof {
        lemma_page_bits_nonneg(*f);
        assert(p / pow2(0) as int == p);
    }
    let ghost exact = 0 <= f.valid_bits && 6 + 41 * mode_count_of(p) <= t;
    let count = (get_field(f, 6, Ghost(p), Ghost(0), Ghost(t)) + 1) as usize;
    let mut modes: Vec<Mode> = Vec::new();
    while modes.len() < count
        invariant
            f.wf(),
            f.same_setup(&*old(f)),
            1 <= count <= 64,
            modes@.len() <= count,
            forall|i: int| 0 <= i < modes@.len() ==> mode_ok(#[trigger] modes@[i], mapping_count as int),
            p >= 0,
            p == page_bits(*old(f)),
            t == bits_in_page(*old(f)),
            exact == (0 <= old(f).valid_bits && 6 + 41 * mode_count_of(p) <= t),
            exact ==> count == mode_count_of(p) && 6 + 41 * count <= t
                && reading_at(*f, p, 6 + 41 * (modes@.len() as int), t),
            exact ==> forall|i: int| 0 <= i < modes@.len() ==> #[trigger] modes@[i] == mode_record(p, i)
                && mode_record_ok(p, i, mapping_count as int),
        decreases count - modes@.len(),
    {
        let ghost pos: int = 6 + 41 * (modes@.len() as int);
        proof {
            if exact {
                assert(pos + 41 <= t) by (nonlinear_arith)
                    requires pos == 6 + 41 * modes@.len(), modes@.len() < count, 6 + 41 * count <= t;
                lemma_bits_after(p, pos as nat, 0);
                lemma_bits_after(p, pos as nat, 1);
                lemma_bits_after(p, pos as nat, 17);
                lemma_bits_after(p, pos as nat, 33);
                lemma_bits_after(p, pos as nat, 41);
                assert(page_bits(*f) / pow2(0) as int == page_bits(*f));
            }
        }
        match parse_mode(f, mapping_count) {
            None => {
                proof {
                    if exact {
                        let k = modes@.len() as int;
                        assert(!mode_record_ok(p, k, mapping_count as int));
                        assert(0 <= k < mode_count_of(p));
                        assert(!(forall|i: int| 0 <= i < mode_count_of(p) ==> #[trigger] mode_record_ok(p, i, mapping_count as int)));
                    }
                }
                return None;
            },
            Some(m) => {
                proof {
                    if exact {
                        assert(m == mode_record(p, modes@.len() as int));
                        assert(mode_record_ok(p, modes@.len() as int, mapping_count as int));
                    }
                }
                modes.push(m);
            },
        }
    }
    proof {
        if exact {
            assert forall|i: int| 0 <= i < mode_count_of(p) implies #[trigger] mode_record_ok(p, i, mapping_count as int) by {
                assert(modes@[i] == mode_record(p, i));
            }
        }
    }
    Some(modes)
}

/// Reads the setup header (the third packet) into the decoder's tables.
fn read_setup_header(f: &mut Vorbis) -> (r: bool)
    requires
        old(f).wf(),
        1 <= old(f).channels <= 16,
    ensures
        final(f).wf(),
        final(f).data == old(f).data,
        final(f).push_mode == old(f).push_mode,
        final(f).stream_len == old(f).stream_len,
        final(f).channels == old(f).channels,
        final(f).sample_rate == old(f).sample_rate,
        final(f).blocksize_0 == old(f).blocksize_0,
        final(f).blocksize_1 == old(f).blocksize_1,
        r ==> setup_tables_ok(*final(f)),
        !r ==> final(f).error != VorbisError::NoError,
{
    if !start_packet(f) {
        return false;
    }
    if f.push_mode && !is_whole_packet_present(f, true) {
        if f.error == VorbisError::InvalidStream {
            f.error = VorbisError::InvalidSetup;
        }
        return false;
    }
    if get8_packet(f) != PACKET_SETUP as i32 {
        error(f, VorbisError::InvalidSetup);
        return false;
    }
    let mut header: Vec<u8> = Vec::new();
    let mut k: usize = 0;
    while k < 6
        invariant
            f.wf(),
            f.same_setup(&*old(f)),
            k <= 6,
            header@.len() == k,
        decreases 6 - k,
    {
        let b = get8_packet(f);
        header.push(b as u8);
        k = k + 1;
    }
    if !vorbis_validate(header.as_slice()) {
        error(f, VorbisError::InvalidSetup);
        return false;
    }
    let codebooks = match read_codebooks(f) {
        None => { return false; },
        Some(c) => c,
    };
    let codebook_count = codebooks.len() as i32;
    proof { vstd::arithmetic::power2::lemma2_to64(); }
    let time_count = get_bits(f, 6) + 1;
    let mut t: u32 = 0;
    while t < time_count
        invariant
            f.wf(),
            f.same_setup(&*old(f)),
            t <= time_count,
        decreases time_count - t,
    {
        if get_bits(f, 16) != 0 {
            error(f, VorbisError::InvalidSetup);
            return false;
        }
        t = t + 1;
    }
    let (floors, longest) = match read_floors(f, codebook_count) {
        None => { return false; },
        Some(x) => x,
    };
    let floor_types = filled(1u16, floors.len());
    let (residue_types, residues) = match read_residues(f, &codebooks) {
        None => { return false; },
        Some(x) => x,
    };
    let channels = f.channels;
    let mappings = match read_mappings(f, channels, floors.len() as i32, residues.len() as i32) {
        None => { return false; },
        Some(m) => m,
    };
    let modes = match read_modes(f, mappings.len() as i32) {
        None => { return false; },
        Some(m) => m,
    };
    flush_packet(f);
    f.codebook_count = codebook_count;
    f.codebooks = codebooks;
    f.floor_count = floors.len() as i32;
    f.floor_types = floor_types;
    f.floor_config = floors;
    f.longest_floorlist = longest;
    f.residue_count = residues.len() as i32;
    f.residue_types = residue_types;
    f.residue_config = residues;
    f.mapping_count = mappings.len() as i32;
    f.mapping = mappings;
    f.mode_count = modes.len() as i32;
    f.mode_config = modes;
    true
}

/// Opens a stream: reads the identification header (first page), skips
/// the comment header, and reads the setup header. On success the decoder
/// holds the identification fields of the first page and consistent setup
/// tables, and the first audio page begins at the current position.
pub fn start_decoder(f: &mut Vorbis) -> (r: bool)
    requires
        old(f).wf(),
    ensures
        final(f).wf(),
        final(f).data == old(f).data,
        final(f).push_mode == old(f).push_mode,
        final(f).stream_len == old(f).stream_len,
        !r ==> final(f).error != VorbisError::NoError,
        r ==> ident_header_ok(old(f).data@, old(f).pos as int),
        r ==> final(f).channels == byte_at(old(f).data@, old(f).pos + 39),
        r ==> final(f).sample_rate == le32_at(old(f).data@, old(f).pos + 40),
        r ==> final(f).blocksize_0 == pow2((byte_at(old(f).data@, old(f).pos + 56) & 15) as nat),
        r ==> final(f).blocksize_1 == pow2((byte_at(old(f).data@, old(f).pos + 56) >> 4) as nat),
        r ==> setup_ok(*final(f)),
        r ==> final(f).first_decode && final(f).previous_length == 0,
        r ==> final(f).first_audio_page_offset == (if final(f).push_mode { 0 } else { final(f).pos as u32 }),
        page_header_at(old(f).data@, old(f).pos as int) && !first_page_fit(old(f).data@, old(f).pos as int)
            ==> !r && final(f).error == VorbisError::InvalidFirstPage,
        page_header_at(old(f).data@, old(f).pos as int) && first_page_fit(old(f).data@, old(f).pos as int)
            && ident_packet_error(old(f).data@, old(f).pos + 28) != VorbisError::NoError
            ==> !r && final(f).error == ident_packet_error(old(f).data@, old(f).pos + 28),
        header_cut(old(f).data@, old(f).pos as int) ==> !r && final(f).eof,
        ident_header_ok(old(f).data@, old(f).pos as int) && old(f).error == VorbisError::NoError
            && !(byte_at(old(f).data@, old(f).pos + 58) == 0x4f && byte_at(old(f).data@, old(f).pos + 59) == 0x67
                && byte_at(old(f).data@, old(f).pos + 60) == 0x67 && byte_at(old(f).data@, old(f).pos + 61) == 0x53)
            ==> !r && final(f).error == VorbisError::MissingCapturePattern,
{
    let (channels, rate, bs) = match read_identification(f) {
        None => { return false; },
        Some(x) => x,
    };
    let log0 = bs & 15;
    let log1 = bs >> 4;
    proof {
        vstd::arithmetic::power2::lemma2_to64();
        vstd::bits::lemma_u32_shl_is_mul(1, log0 as u32);
        vstd::bits::lemma_u32_shl_is_mul(1, log1 as u32);
        if log0 < log1 {
            vstd::arithmetic::power2::lemma_pow2_strictly_increases(log0 as nat, log1 as nat);
        }
        if 6 < log0 {
            vstd::arithmetic::power2::lemma_pow2_strictly_increases(6, log0 as nat);
        }
        if log1 < 13 {
            vstd::arithmetic::power2::lemma_pow2_strictly_increases(log1 as nat, 13);
        }
    }
    f.channels = channels as i32;
    f.sample_rate = rate;
    f.blocksize_0 = (1u32 << (log0 as u32)) as usize;
    f.blocksize_1 = (1u32 << (log1 as u32)) as usize;
    let ghost fs = *f;
    if !start_page(f) {
        return false;
    }
    if !start_packet(f) {
        return false;
    }
    loop
        invariant
            f.wf(),
            f.same_setup(&fs),
            f.bytes_in_seg == 0,
        decreases progress(*f),
    {
        let ghost before = progress(*f);
        let len = next_segment(f);
        skip(f, len);
        f.bytes_in_seg = 0;
        if len == 0 {
            break;
        }
    }
    if !read_setup_header(f) {
        return false;
    }
    f.previous_length = 0;
    f.first_decode = true;
    f.first_audio_page_offset = stb_vorbis_get_file_offset(f);
    true
}

} // verus!
