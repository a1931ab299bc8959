use vstd::prelude::*;
use vstd::arithmetic::power2::pow2;
use crate::codebook::{decode_range, decode_raw, decode_at, decode_start_at, decode_scalar_at, code_read, entry_read};
use crate::ogg::{reading_at, page_bits, bits_in_page, lemma_page_bits_nonneg};
use crate::setup::{codebook_setup_ok, residue_ok, setup_ok, class_digit};
use crate::types::{Codebook, Residue, VorbisError};
use crate::vorbis::{Vorbis, error, EOP};

verus! {

/// One vector of residue values decoded from a packet: the entry of a
/// codebook, and where its first `count` values are added.
#[derive(Copy, Clone, PartialEq, Eq, Debug, Structural)]
pub struct ResidueVector {
    /// The codebook decoded with.
    pub book: u32,
    /// The entry decoded (its position in the sorted table for a sparse codebook).
    pub entry: i32,
    /// The channel of the first value.
    pub channel: u32,
    /// The position of the first value in its channel.
    pub offset: u32,
    /// The distance between the positions of the values in the channel; 0
    /// for values interleaved over the channels (each position of all the
    /// channels in turn, then the next position).
    pub step: u32,
    /// How many values of the vector are added.
    pub count: u32,
    /// The type of the residue decoded; with a codebook whose values
    /// accumulate (`sequence_p`), it decides how they do.
    pub rtype: u16,
}

/// Value `i` of an interleaved vector lands in a channel of length `n`, or
/// in a channel that is not decoded (and is dropped).
pub open spec fn interleaved_ok(v: ResidueVector, skip: Seq<bool>, n: int, i: int) -> bool {
    let ch = skip.len() as int;
    let idx = v.offset * ch + v.channel + i;
    idx < n * ch || skip[idx % ch]
}

/// A vector that can be applied: a decoded entry of a codebook with a
/// lookup table, values read from inside that table (no more than the
/// codebook's dimensions unless interleaved), and every value landing
/// inside a decoded channel of length `n` (or dropped with a channel that
/// is not decoded).
pub open spec fn vector_ok(v: ResidueVector, books: Seq<Codebook>, rtype: u16, skip: Seq<bool>, n: int) -> bool {
    &&& (v.book as int) < books.len()
    &&& books[v.book as int].lookup_type == 2
    &&& 0 <= v.entry < decode_range(books[v.book as int])
    &&& v.entry * books[v.book as int].dimensions + v.count <= books[v.book as int].multiplicands@.len()
    &&& v.rtype == rtype
    &&& (v.step == 0) == (rtype == 2 && skip.len() >= 2)
    &&& (v.channel as int) < skip.len()
    &&& v.step > 0 ==> v.count <= books[v.book as int].dimensions && !skip[v.channel as int]
        && (v.count > 0 ==> v.offset + (v.count - 1) * v.step < n)
    &&& v.step == 0 ==> forall|i: int| 0 <= i < v.count ==> #[trigger] interleaved_ok(v, skip, n, i)
}

/// All the vectors from `start` on can be applied.
pub open spec fn vectors_ok(out: Seq<ResidueVector>, start: int, books: Seq<Codebook>, rtype: u16, skip: Seq<bool>, n: int) -> bool {
    forall|k: int| start <= k < out.len() ==> vector_ok(#[trigger] out[k], books, rtype, skip, n)
}

/// The values of entry `e` of a table of `range` entries of `dims` values
/// each lie inside the table.
proof fn lemma_entry_fits(e: int, dims: int, count: int, range: int, len: int)
    requires
        0 <= e < range,
        0 <= count <= dims,
        len >= range * dims,
    ensures
        e * dims + count <= len,
{
    assert(e * dims + count <= len) by (nonlinear_arith)
        requires 0 <= e < range, 0 <= count <= dims, len >= range * dims;
}

/// Vector `j` of a partition of `part` values starting at `offset` of a
/// channel, with a codebook of `dims` values per entry: for a residue of
/// type 0 its values lie `part / dims` apart from `offset + j` on, else
/// they follow one another from `offset + j * dims`; it holds `dims`
/// values, fewer where the partition runs out.
pub open spec fn partition_vector_ok(v: ResidueVector, b: int, rtype: u16, channel: u32, offset: int, part: int,
    dims: int, j: int) -> bool {
    &&& v.book == b
    &&& v.channel == channel
    &&& v.rtype == rtype
    &&& rtype == 0 ==> v.offset == offset + j && v.step == part / dims
        && v.count == (if part - offset - j < dims { part - offset - j } else { dims })
    &&& rtype != 0 ==> v.offset == offset + j * dims && v.step == 1
        && v.count == (if part - j * dims < dims { part - j * dims } else { dims })
}

/// How many vectors a whole partition of `part` values holds, with a
/// codebook of `dims` values per entry.
pub open spec fn partition_vectors(rtype: u16, part: int, dims: int) -> int {
    if rtype == 0 { part / dims } else { (part + dims - 1) / dims }
}

/// The vectors after the first `start` of `out` are those of a partition,
/// in order.
pub open spec fn partition_vectors_ok(out: Seq<ResidueVector>, start: int, b: int, rtype: u16, channel: u32,
    offset: int, part: int, dims: int) -> bool {
    forall|j: int| start <= j < out.len()
        ==> partition_vector_ok(#[trigger] out[j], b, rtype, channel, offset, part, dims, j - start)
}

/// The state of a reading of residue vectors from the bits `p` of a page
/// that ends at bit `t`: whether every code so far was found and nothing
/// stopped the reading, the bit it has reached, and the vectors read.
pub type ResidueReading = (bool, int, Seq<ResidueVector>);

/// The reading `st` once the first `k` vectors of a partition of type 0
/// are read (see `partition_read`).
pub open spec fn part0_read(books: Seq<Codebook>, b: int, rtype: u16, channel: u32, offset: int, part: int, n: int,
    p: int, t: int, k: int, st: ResidueReading) -> ResidueReading
    decreases k,
{
    if k <= 0 {
        st
    } else {
        let prev = part0_read(books, b, rtype, channel, offset, part, n, p, t, k - 1, st);
        let c = books[b];
        let dims = c.dimensions as int;
        let step = part / dims;
        let kk = k - 1;
        let len = part - offset - kk;
        let count = if len < dims { len } else { dims };
        let z = entry_read(c, p, prev.1, t);
        let ok = prev.0 && !(offset + kk > part || part > n) && z.0 && !(count > 0 && (count - 1) * step >= len);
        (ok, prev.1 + z.2, prev.2.push(ResidueVector { book: b as u32, entry: z.1 as i32, channel,
            offset: (offset + kk) as u32, step: step as u32, count: count as u32, rtype }))
    }
}

/// The reading `st` once the first `m` vectors of a partition of type 1
/// or 2 are read (see `partition_read`).
pub open spec fn part1_read(books: Seq<Codebook>, b: int, rtype: u16, channel: u32, offset: int, part: int, n: int,
    p: int, t: int, m: int, st: ResidueReading) -> ResidueReading
    decreases m,
{
    if m <= 0 {
        st
    } else {
        let prev = part1_read(books, b, rtype, channel, offset, part, n, p, t, m - 1, st);
        let c = books[b];
        let dims = c.dimensions as int;
        let k = (m - 1) * dims;
        let off = offset + k;
        let count = if part - k < dims { part - k } else { dims };
        let z = entry_read(c, p, prev.1, t);
        let ok = prev.0 && !(off + (part - k) > n) && z.0;
        (ok, prev.1 + z.2, prev.2.push(ResidueVector { book: b as u32, entry: z.1 as i32, channel,
            offset: off as u32, step: 1, count: count as u32, rtype }))
    }
}

/// The reading `st` once the partition of `part` values at `offset` of
/// `channel` is read with book `b`: one entry per vector, each read where
/// the one before left off. Of type 0, vector `j` takes the values
/// `part / dims` apart from `offset + j` on; else the values from
/// `offset + j * dims` on. The reading stops where the book has no
/// dimensions, where the partition would not fit in `n` values, or where a
/// vector would run past it.
pub open spec fn partition_read(books: Seq<Codebook>, b: int, rtype: u16, channel: u32, offset: int, part: int, n: int,
    p: int, t: int, st: ResidueReading) -> ResidueReading {
    let dims = books[b].dimensions as int;
    if dims == 0 {
        (false, st.1, st.2)
    } else if rtype == 0 {
        part0_read(books, b, rtype, channel, offset, part, n, p, t, part / dims, st)
    } else {
        part1_read(books, b, rtype, channel, offset, part, n, p, t, (part + dims - 1) / dims, st)
    }
}

/// A reading that ends well was well up to each of its vectors of type 0.
proof fn lemma_part0_ok(books: Seq<Codebook>, b: int, rtype: u16, channel: u32, offset: int, part: int, n: int,
    p: int, t: int, k1: int, k2: int, st: ResidueReading)
    requires
        0 <= k1 <= k2,
        part0_read(books, b, rtype, channel, offset, part, n, p, t, k2, st).0,
    ensures
        part0_read(books, b, rtype, channel, offset, part, n, p, t, k1, st).0,
    decreases k2,
{
    if k1 < k2 {
        lemma_part0_ok(books, b, rtype, channel, offset, part, n, p, t, k1, k2 - 1, st);
    }
}

/// A reading that ends well was well up to each of its vectors of type 1 or 2.
proof fn lemma_part1_ok(books: Seq<Codebook>, b: int, rtype: u16, channel: u32, offset: int, part: int, n: int,
    p: int, t: int, m1: int, m2: int, st: ResidueReading)
    requires
        0 <= m1 <= m2,
        part1_read(books, b, rtype, channel, offset, part, n, p, t, m2, st).0,
    ensures
        part1_read(books, b, rtype, channel, offset, part, n, p, t, m1, st).0,
    decreases m2,
{
    if m1 < m2 {
        lemma_part1_ok(books, b, rtype, channel, offset, part, n, p, t, m1, m2 - 1, st);
    }
}

/// Decodes the vectors of one partition of a channel, for a residue of
/// type 0 (each vector's values spread over the partition, `part / dims`
/// apart) or of another type (vectors one after the other). Adds their
/// records to `out`; false when decoding stops (at the end of the packet,
/// on a bad code, or where a vector would not fit in the partition).
fn decode_partition(f: &mut Vorbis, books: &Vec<Codebook>, b: usize, rtype: u16, channel: u32, offset: i32,
    part: i32, n: i32, skip: &Vec<bool>, out: &mut Vec<ResidueVector>, Ghost(p): Ghost<int>, Ghost(pos): Ghost<int>,
    Ghost(t): Ghost<int>) -> (r: bool)
    requires
        old(f).wf(),
        b < books@.len() <= 256,
        forall|i: int| 0 <= i < books@.len() ==> codebook_setup_ok(#[trigger] books@[i]),
        0 <= offset < 0x200_0000,
        1 <= part <= 0x100_0000,
        0 <= n <= 8192,
        rtype <= 2,
        !(rtype == 2 && skip@.len() >= 2),
        channel < skip@.len(),
        !skip@[channel as int],
        vectors_ok(old(out)@, 0, books@, rtype, skip@, n as int),
    ensures
        final(f).wf(),
        final(f).same_setup(&*old(f)),
        vectors_ok(final(out)@, 0, books@, rtype, skip@, n as int),
        books@[b as int].dimensions == 0 ==> !r && final(out)@ == old(out)@
            && *final(f) == (Vorbis { error: VorbisError::InvalidStream, ..*old(f) }),
        old(out)@.len() <= final(out)@.len(),
        final(out)@.subrange(0, old(out)@.len() as int) == old(out)@,
        partition_vectors_ok(final(out)@, old(out)@.len() as int, b as int, rtype, channel, offset as int, part as int,
            books@[b as int].dimensions as int),
        r ==> final(out)@.len() == old(out)@.len()
            + partition_vectors(rtype, part as int, books@[b as int].dimensions as int),
        reading_at(*old(f), p, pos, t) ==> {
            let e = partition_read(books@, b as int, rtype, channel, offset as int, part as int, n as int, p, t,
                (true, pos, old(out)@));
            e.0 ==> r && reading_at(*final(f), p, e.1, t) && final(out)@ == e.2
        },
{
    let ghost start = out@.len() as int;
    let ghost st0: ResidueReading = (true, pos, out@);
    let ghost f0 = *f;
    let c = &books[b];
    let dims = c.dimensions;
    proof {
        assert(out@.subrange(0, start) =~= out@);
    }
    if dims == 0 {
        error(f, VorbisError::InvalidStream);
        return false;
    }
    if rtype == 0 {
        let step = part / dims;
        let mut k: i32 = 0;
        while k < step
            invariant
                f.wf(),
                f.same_setup(&*old(f)),
                0 <= k <= step,
                step == part / dims,
                dims >= 1,
                dims == c.dimensions,
                c == books@[b as int],
                b < books@.len() <= 256,
                forall|i: int| 0 <= i < books@.len() ==> codebook_setup_ok(#[trigger] books@[i]),
                0 <= offset < 0x200_0000,
                1 <= part <= 0x100_0000,
                0 <= n <= 8192,
                rtype <= 2,
                !(rtype == 2 && skip@.len() >= 2),
                channel < skip@.len(),
                !skip@[channel as int],
                vectors_ok(out@, 0, books@, rtype, skip@, n as int),
                rtype == 0,
                start == old(out)@.len(),
                out@.len() == start + k,
                out@.subrange(0, start) == old(out)@,
                partition_vectors_ok(out@, start, b as int, rtype, channel, offset as int, part as int, dims as int),
                st0 == (true, pos, old(out)@),
                f0 == *old(f),
                reading_at(f0, p, pos, t) ==> {
                    let e = part0_read(books@, b as int, rtype, channel, offset as int, part as int, n as int, p, t,
                        k as int, st0);
                    e.0 ==> reading_at(*f, p, e.1, t) && out@ == e.2
                },
            decreases step - k,
        {
            let ghost ek = part0_read(books@, b as int, rtype, channel, offset as int, part as int, n as int, p, t,
                k as int, st0);
            proof {
                if reading_at(f0, p, pos, t) && part0_read(books@, b as int, rtype, channel, offset as int,
                    part as int, n as int, p, t, step as int, st0).0 {
                    lemma_part0_ok(books@, b as int, rtype, channel, offset as int, part as int, n as int, p, t,
                        k + 1, step as int, st0);
                }
            }
            if offset + k > part || part > n {
                return false;
            }
            let z = decode_start_at(f, c, Ghost(p), Ghost(ek.1), Ghost(t));
            if z < 0 {
                return false;
            }
            let len = part - offset - k;
            let count = if len < dims { len } else { dims };
            proof {
                assert(codebook_setup_ok(books@[b as int]));
                assert(c.lookup_type == 2);
                assert(0 <= count < 0x1_0000);
                assert((count as int - 1) * step <= 0x1_0000 * 0x100_0000) by (nonlinear_arith)
                    requires 0 <= count < 0x1_0000, 0 <= step <= 0x100_0000;
            }
            if count > 0 && (count - 1) as i64 * step as i64 >= len as i64 {
                return false;
            }
            let v = ResidueVector { book: b as u32, entry: z, channel, offset: (offset + k) as u32, step: step as u32, count: count as u32, rtype };
            proof {
                assert(c.lookup_type == 2);
                if count > 0 {
                    assert(v.offset + (v.count - 1) * v.step < n) by (nonlinear_arith)
                        requires (v.count - 1) * v.step < len, v.offset == offset + k, len == part - offset - k,
                            part <= n, v.count > 0, v.count == count, v.step == step;
                }
            }
            proof {
                lemma_entry_fits(z as int, dims as int, count as int, decode_range(*c), c.multiplicands@.len() as int);
                assert((v.book as int) < books@.len());
                assert(books@[v.book as int].lookup_type == 2);
                assert(0 <= v.entry < decode_range(books@[v.book as int]));
                assert(v.count <= books@[v.book as int].dimensions);
                assert((v.channel as int) < skip@.len());
                assert(v.step > 0);
                assert(!skip@[v.channel as int]);
                assert(vector_ok(v, books@, rtype, skip@, n as int));
            }
            let ghost before = out@;
            out.push(v);
            proof {
                assert(out@.subrange(0, start) =~= before.subrange(0, start));
                assert(partition_vector_ok(v, b as int, rtype, channel, offset as int, part as int, dims as int, k as int));
            }
            k = k + 1;
        }
    } else {
        let mut k: i32 = 0;
        let mut off: i32 = offset;
        while k < part
            invariant
                f.wf(),
                f.same_setup(&*old(f)),
                0 <= k,
                k < part + dims,
                off == offset + k,
                dims >= 1,
                dims == c.dimensions,
                c == books@[b as int],
                b < books@.len() <= 256,
                forall|i: int| 0 <= i < books@.len() ==> codebook_setup_ok(#[trigger] books@[i]),
                0 <= offset < 0x200_0000,
                1 <= part <= 0x100_0000,
                dims < 0x1_0000,
                0 <= n <= 8192,
                rtype <= 2,
                !(rtype == 2 && skip@.len() >= 2),
                channel < skip@.len(),
                !skip@[channel as int],
                vectors_ok(out@, 0, books@, rtype, skip@, n as int),
                rtype != 0,
                start == old(out)@.len(),
                start <= out@.len(),
                k == (out@.len() - start) * dims,
                out@.subrange(0, start) == old(out)@,
                partition_vectors_ok(out@, start, b as int, rtype, channel, offset as int, part as int, dims as int),
                st0 == (true, pos, old(out)@),
                f0 == *old(f),
                reading_at(f0, p, pos, t) ==> {
                    let e = part1_read(books@, b as int, rtype, channel, offset as int, part as int, n as int, p, t,
                        out@.len() - start, st0);
                    e.0 ==> reading_at(*f, p, e.1, t) && out@ == e.2
                },
            decreases part + dims - k,
        {
            let ghost m = out@.len() - start;
            let ghost ek = part1_read(books@, b as int, rtype, channel, offset as int, part as int, n as int, p, t,
                m, st0);
            proof {
                let pp: int = part as int;
                let dd: int = dims as int;
                let kk: int = k as int;
                assert(m + 1 <= (pp + dd - 1) / dd) by (nonlinear_arith)
                    requires kk == m * dd, kk < pp, dd >= 1, m >= 0;
                if reading_at(f0, p, pos, t) && part1_read(books@, b as int, rtype, channel, offset as int,
                    part as int, n as int, p, t, (pp + dd - 1) / dd, st0).0 {
                    lemma_part1_ok(books@, b as int, rtype, channel, offset as int, part as int, n as int, p, t,
                        m + 1, (pp + dd - 1) / dd, st0);
                }
            }
            if off + (part - k) > n {
                return false;
            }
            let z = decode_start_at(f, c, Ghost(p), Ghost(ek.1), Ghost(t));
            if z < 0 {
                return false;
            }
            let count = if part - k < dims { part - k } else { dims };
            let v = ResidueVector { book: b as u32, entry: z, channel, offset: off as u32, step: 1, count: count as u32, rtype };
            proof {
                assert(codebook_setup_ok(books@[b as int]));
                assert(c.lookup_type == 2);
                lemma_entry_fits(z as int, dims as int, count as int, decode_range(*c), c.multiplicands@.len() as int);
            }
            let ghost before = out@;
            proof {
                assert(k == (before.len() - start) * dims);
                assert(partition_vector_ok(v, b as int, rtype, channel, offset as int, part as int, dims as int,
                    before.len() - start));
            }
            out.push(v);
            proof {
                assert(vector_ok(v, books@, rtype, skip@, n as int));
                assert(out@.subrange(0, start) =~= before.subrange(0, start));
                let kk: int = k as int;
                let dd: int = dims as int;
                let j0: int = before.len() - start;
                assert(kk + dd == (j0 + 1) * dd) by (nonlinear_arith)
                    requires kk == j0 * dd;
            }
            k = k + dims;
            off = off + dims;
        }
        proof {
            let j: int = out@.len() - start;
            let pp: int = part as int;
            let dd: int = dims as int;
            let kk: int = k as int;
            assert(j == (pp + dd - 1) / dd) by (nonlinear_arith)
                requires kk == j * dd, pp <= kk, kk < pp + dd, dd >= 1;
        }
    }
    true
}

/// Position `z` of the channels interleaved is channel `z % ch` at
/// position `z / ch`.
proof fn lemma_split(z: int, ch: int)
    requires
        0 <= z,
        0 < ch,
    ensures
        0 <= z % ch < ch,
        0 <= z / ch,
        (z / ch) * ch + z % ch == z,
{
    vstd::arithmetic::div_mod::lemma_fundamental_div_mod(z, ch);
    vstd::arithmetic::div_mod::lemma_mod_pos_bound(z, ch);
    vstd::arithmetic::div_mod::lemma_div_pos_is_pos(z, ch);
    vstd::arithmetic::mul::lemma_mul_is_commutative(ch, z / ch);
}

/// Whether every value of the interleaved vector `v` lands in a decoded
/// channel of length `cap`, or in a channel that is not decoded.
fn lands_ok(v: &ResidueVector, skip: &Vec<bool>, cap: i32) -> (r: bool)
    requires
        2 <= skip@.len() <= 16,
        0 <= cap <= 8192,
        v.offset * skip@.len() + v.channel + v.count < 0x800_0000,
    ensures
        r == forall|q: int| 0 <= q < v.count ==> #[trigger] interleaved_ok(*v, skip@, cap as int, q),
{
    let ch = skip.len() as i64;
    proof {
        assert(0 <= cap * ch <= 0x2_0000) by (nonlinear_arith) requires 0 <= cap <= 8192, 2 <= ch <= 16;
    }
    let start = (v.offset as i64) * ch + (v.channel as i64);
    let limit = (cap as i64) * ch;
    let count = v.count as i64;
    let mut q: i64 = 0;
    while q < count
        invariant
            0 <= q <= count,
            count == v.count,
            ch == skip@.len(),
            2 <= ch <= 16,
            start == v.offset * ch + v.channel,
            limit == cap * ch,
            start + count < 0x800_0000,
            forall|k: int| 0 <= k < q ==> #[trigger] interleaved_ok(*v, skip@, cap as int, k),
        decreases count - q,
    {
        let idx = start + q;
        proof { lemma_split(idx as int, ch as int); }
        if idx >= limit && !skip[(idx % ch) as usize] {
            assert(!interleaved_ok(*v, skip@, cap as int, q as int));
            return false;
        }
        q = q + 1;
    }
    true
}

/// How many values the vectors of `s` hold together.
pub open spec fn counts_sum(s: Seq<ResidueVector>) -> int
    decreases s.len(),
{
    if s.len() == 0 { 0 } else { counts_sum(s.drop_last()) + s.last().count }
}

/// The vectors after the first `start` of `out` are interleaved vectors
/// of the book `b` laid end to end from the interleaved position `pos`
/// (position times `ch` plus channel).
pub open spec fn interleaved_run_ok(out: Seq<ResidueVector>, start: int, b: int, ch: int, pos: int) -> bool {
    forall|j: int| start <= j < out.len() ==> {
        &&& (#[trigger] out[j]).book == b
        &&& out[j].step == 0
        &&& out[j].rtype == 2
        &&& out[j].offset * ch + out[j].channel == pos + counts_sum(out.subrange(start, j))
    }
}

/// Every value of the interleaved vector `v` lands in a channel of length
/// `n` or in one that is not decoded.
pub open spec fn lands_all(v: ResidueVector, skip: Seq<bool>, n: int) -> bool {
    forall|q: int| 0 <= q < v.count ==> #[trigger] interleaved_ok(v, skip, n, q)
}

/// The state of a reading of interleaved vectors: whether every code so
/// far was found and nothing stopped the reading, the bit it has reached,
/// the vectors read, and the channel and position of the next value.
pub type InterleavedReading = (bool, int, Seq<ResidueVector>, int, int);

/// The reading `st` once `remaining` more values of a partition of type 2
/// are read with book `b` over the channels of `skip` interleaved, each
/// vector holding `effective` values (the book's dimensions) but cut short
/// where it would pass `n` interleaved positions. The reading stops where
/// a vector would be empty, would read past the book's table, or would
/// land past the end of a decoded channel of length `cap`.
pub open spec fn interleaved_read(books: Seq<Codebook>, b: int, n: int, cap: int, skip: Seq<bool>, p: int, t: int,
    remaining: int, effective: int, st: InterleavedReading) -> InterleavedReading
    decreases remaining,
{
    if remaining <= 0 || !st.0 {
        st
    } else {
        let c = books[b];
        let ch = skip.len() as int;
        let z = entry_read(c, p, st.1, t);
        let start = st.4 * ch + st.3;
        let eff = if start + effective > n * ch { n * ch - (st.4 * ch - st.3) } else { effective };
        let v = ResidueVector { book: b as u32, entry: z.1 as i32, channel: st.3 as u32, offset: st.4 as u32,
            step: 0, count: eff as u32, rtype: 2 };
        if !z.0 || eff <= 0 || z.1 * (c.dimensions as int) + eff > c.multiplicands@.len() || !lands_all(v, skip, cap) {
            (false, st.1, st.2, st.3, st.4)
        } else {
            let e = start + eff;
            interleaved_read(books, b, n, cap, skip, p, t, if remaining > eff { remaining - eff } else { 0 }, eff,
                (true, st.1 + z.2, st.2.push(v), e % ch, e / ch))
        }
    }
}

/// Decodes the vectors of one partition of a residue of type 2 over the
/// channels of `skip` interleaved: `total` values, the first for channel
/// `*ci` at position `*pi`, each next value for the next channel (and
/// after the last channel, the first at the next position). A vector that
/// would pass `n` interleaved positions is cut short, to as many values as
/// `n * ch - (*pi * ch - *ci)`. Adds the vectors to `out` and leaves
/// `*ci` and `*pi` after the last value; false when decoding stops (at the
/// end of the packet, on a bad code, or where a vector would be empty,
/// would read past its codebook's table, or would land past the end of a
/// decoded channel of length `cap`).
fn decode_interleaved(f: &mut Vorbis, books: &Vec<Codebook>, b: usize, ci: &mut i32, pi: &mut i32,
    n: i32, cap: i32, total: i32, skip: &Vec<bool>, out: &mut Vec<ResidueVector>, Ghost(p): Ghost<int>,
    Ghost(pos): Ghost<int>, Ghost(t): Ghost<int>) -> (r: bool)
    requires
        old(f).wf(),
        b < books@.len() <= 256,
        forall|i: int| 0 <= i < books@.len() ==> codebook_setup_ok(#[trigger] books@[i]),
        2 <= skip@.len() <= 16,
        0 <= *old(ci) < skip@.len(),
        0 <= *old(pi),
        *old(pi) * skip@.len() + *old(ci) < 0x400_0000,
        0 <= n <= cap <= 8192,
        1 <= total <= 0x100_0000,
        vectors_ok(old(out)@, 0, books@, 2, skip@, cap as int),
    ensures
        final(f).wf(),
        final(f).same_setup(&*old(f)),
        vectors_ok(final(out)@, 0, books@, 2, skip@, cap as int),
        0 <= *final(ci) < skip@.len(),
        0 <= *final(pi),
        *final(pi) * skip@.len() + *final(ci) < 0x400_0000,
        books@[b as int].lookup_type == 0 ==> !r && final(out)@ == old(out)@ && *final(ci) == *old(ci)
            && *final(pi) == *old(pi) && *final(f) == (Vorbis { error: VorbisError::InvalidStream, ..*old(f) }),
        old(out)@.len() <= final(out)@.len(),
        final(out)@.subrange(0, old(out)@.len() as int) == old(out)@,
        interleaved_run_ok(final(out)@, old(out)@.len() as int, b as int, skip@.len() as int,
            *old(pi) * skip@.len() + *old(ci)),
        *final(pi) * skip@.len() + *final(ci) == *old(pi) * skip@.len() + *old(ci)
            + counts_sum(final(out)@.subrange(old(out)@.len() as int, final(out)@.len() as int)),
        r ==> *final(pi) * skip@.len() + *final(ci) >= *old(pi) * skip@.len() + *old(ci) + total,
        reading_at(*old(f), p, pos, t) ==> {
            let e = interleaved_read(books@, b as int, n as int, cap as int, skip@, p, t, total as int,
                books@[b as int].dimensions as int, (true, pos, old(out)@, *old(ci) as int, *old(pi) as int));
            e.0 ==> r && reading_at(*final(f), p, e.1, t) && final(out)@ == e.2 && *final(ci) == e.3
                && *final(pi) == e.4
        },
{
    let ghost base = out@.len() as int;
    let ghost f0 = *f;
    let ghost fin = interleaved_read(books@, b as int, n as int, cap as int, skip@, p, t, total as int,
        books@[b as int].dimensions as int, (true, pos, old(out)@, *old(ci) as int, *old(pi) as int));
    let ghost mut cur = pos;
    let ghost pos0 = *pi * skip@.len() + *ci;
    proof {
        assert(out@.subrange(0, base) =~= out@);
        assert(out@.subrange(base, base) =~= Seq::<ResidueVector>::empty());
    }
    let c = &books[b];
    let ch = skip.len() as i32;
    proof {
        assert(codebook_setup_ok(books@[b as int]));
    }
    if c.lookup_type == 0 {
        error(f, VorbisError::InvalidStream);
        return false;
    }
    let dims = c.dimensions;
    let mut effective: i32 = dims;
    let mut remaining: i32 = total;
    while remaining > 0
        invariant
            f.wf(),
            f.same_setup(&*old(f)),
            c == books@[b as int],
            b < books@.len() <= 256,
            forall|i: int| 0 <= i < books@.len() ==> codebook_setup_ok(#[trigger] books@[i]),
            c.lookup_type != 0,
            dims == c.dimensions,
            2 <= ch <= 16,
            ch == skip@.len(),
            0 <= *ci < ch,
            0 <= *pi,
            *pi * ch + *ci < 0x400_0000,
            1 <= effective <= 0x4_0000,
            0 <= n <= cap <= 8192,
            remaining <= 0x100_0000,
            vectors_ok(out@, 0, books@, 2, skip@, cap as int),
            base == old(out)@.len(),
            base <= out@.len(),
            out@.subrange(0, base) == old(out)@,
            pos0 == *old(pi) * ch + *old(ci),
            interleaved_run_ok(out@, base, b as int, ch as int, pos0),
            *pi * ch + *ci == pos0 + counts_sum(out@.subrange(base, out@.len() as int)),
            total - remaining <= counts_sum(out@.subrange(base, out@.len() as int)),
            f0 == *old(f),
            fin == interleaved_read(books@, b as int, n as int, cap as int, skip@, p, t, total as int,
                books@[b as int].dimensions as int, (true, pos, old(out)@, *old(ci) as int, *old(pi) as int)),
            reading_at(f0, p, pos, t) && fin.0 ==> reading_at(*f, p, cur, t)
                && interleaved_read(books@, b as int, n as int, cap as int, skip@, p, t, remaining as int,
                    effective as int, (true, cur, out@, *ci as int, *pi as int)) == fin,
        decreases remaining,
    {
        let ghost stc: InterleavedReading = (true, cur, out@, *ci as int, *pi as int);
        let ghost zs = entry_read(*c, p, cur, t);
        let ghost eff0 = effective;
        let z = decode_scalar_at(f, c, Ghost(p), Ghost(cur), Ghost(t));
        proof {
            if reading_at(f0, p, pos, t) && fin.0 {
                assert(interleaved_read(books@, b as int, n as int, cap as int, skip@, p, t, remaining as int,
                    eff0 as int, stc) == fin);
                assert(zs.0);
                assert(z == zs.1);
            }
        }
        if z < 0 {
            if f.bytes_in_seg == 0 && f.last_seg {
                return false;
            }
            error(f, VorbisError::InvalidStream);
            return false;
        }
        let c0 = *ci;
        let p0 = *pi;
        proof {
            assert(codebook_setup_ok(books@[b as int]));
            assert(0 <= n * ch <= 0x2_0000) by (nonlinear_arith) requires 0 <= n <= 8192, 2 <= ch <= 16;
            assert(p0 <= p0 * ch) by (nonlinear_arith) requires p0 >= 0, ch >= 1;
            assert((z as int) * (dims as int) < 0x100_0000 * 0x1_0000) by (nonlinear_arith)
                requires 0 <= z < 0x100_0000, 0 <= dims < 0x1_0000;
        }
        let nch = n * ch;
        let start = p0 * ch + c0;
        if start + effective > nch {
            effective = nch - (p0 * ch - c0);
        }
        if effective <= 0 {
            return false;
        }
        if (z as u64) * (dims as u64) + (effective as u64) > c.multiplicands.len() as u64 {
            return false;
        }
        let v = ResidueVector { book: b as u32, entry: z, channel: c0 as u32, offset: p0 as u32, step: 0,
            count: effective as u32, rtype: 2 };
        if !lands_ok(&v, skip, cap) {
            proof {
                if reading_at(f0, p, pos, t) && fin.0 {
                    let chi = skip@.len() as int;
                    let st_s = stc.4 * chi + stc.3;
                    let eff_s = if st_s + eff0 > n * chi { n * chi - (stc.4 * chi - stc.3) } else { eff0 as int };
                    let sv = ResidueVector { book: (b as int) as u32, entry: zs.1 as i32, channel: stc.3 as u32,
                        offset: stc.4 as u32, step: 0, count: eff_s as u32, rtype: 2 };
                    assert(effective == eff_s);
                    assert(sv == v);
                    assert(lands_all(sv, skip@, cap as int));
                }
            }
            return false;
        }
        proof {
            assert(c.lookup_type == 2);
            assert(vector_ok(v, books@, 2, skip@, cap as int));
        }
        let ghost before = out@;
        out.push(v);
        let e = start + effective;
        proof {
            cur = cur + zs.2;
            lemma_split(e as int, ch as int);
            assert(out@.subrange(0, base) =~= before.subrange(0, base));
            assert(out@.subrange(base, out@.len() as int).drop_last() =~= before.subrange(base, before.len() as int));
            assert(out@.subrange(base, before.len() as int) =~= before.subrange(base, before.len() as int));
            assert forall|j: int| base <= j < out@.len() implies {
                &&& (#[trigger] out@[j]).book == b as int
                &&& out@[j].step == 0
                &&& out@[j].rtype == 2
                &&& out@[j].offset * (ch as int) + out@[j].channel == pos0 + counts_sum(out@.subrange(base, j))
            } by {
                if j < before.len() {
                    assert(out@.subrange(base, j) =~= before.subrange(base, j));
                    assert(out@[j] == before[j]);
                }
            }
        }
        *ci = e % ch;
        *pi = e / ch;
        remaining = if remaining > effective { remaining - effective } else { 0 };
    }
    true
}

/// Partition `p` of a residue that reads `d / ps` partitions of `ps`
/// values ends inside the `d` values it reads.
proof fn lemma_part_bound(p: int, d: int, ps: int)
    requires
        0 <= p < d / ps,
        0 < ps,
        0 <= d,
    ensures
        0 <= p * ps,
        p * ps + ps <= d,
{
    vstd::arithmetic::mul::lemma_mul_inequality(p + 1, d / ps, ps);
    vstd::arithmetic::mul::lemma_mul_is_distributive_add_other_way(ps, p, 1);
    vstd::arithmetic::mul::lemma_mul_nonnegative(p, ps);
    vstd::arithmetic::div_mod::lemma_fundamental_div_mod(d, ps);
    vstd::arithmetic::div_mod::lemma_mod_pos_bound(d, ps);
    vstd::arithmetic::mul::lemma_mul_is_commutative(ps, d / ps);
}

/// Classification digit `k` of an entry of a residue's class book names
/// one of its classifications.
proof fn lemma_class_bound(r: Residue, rtype: u16, books: Seq<Codebook>, q: int, k: int)
    requires
        residue_ok(r, rtype, books),
        0 <= q < r.classdata@.len(),
        0 <= k < books[r.classbook as int].dimensions,
    ensures
        0 <= r.classdata@[q]@[k] < r.classifications,
{
    vstd::arithmetic::div_mod::lemma_mod_bound(
        q / vstd::arithmetic::power::pow(r.classifications as int, (books[r.classbook as int].dimensions - 1 - k) as nat),
        r.classifications as int);
}

/// A reading of interleaved partitions with the class words read so far
/// (one class value each) and the channel and position of the next value.
pub type InterleavedClassReading = (bool, int, Seq<ResidueVector>, Seq<int>, int, int);

/// The reading `st` once the partitions of the first `i` digits of class
/// word `cs` are read in pass `pass`, over the channels interleaved:
/// partition `cs * cw + i` for digit `i`, up to the last partition, read
/// with the book that the pass gives the classification digit `i` of the
/// class value names; a partition without a book moves on to the next.
pub open spec fn inter_word_read(books: Seq<Codebook>, r: Residue, skip: Seq<bool>, n: int, cap: int, p: int, t: int,
    pass: int, cs: int, i: int, st: InterleavedClassReading) -> InterleavedClassReading
    decreases i,
{
    if i <= 0 {
        st
    } else {
        let prev = inter_word_read(books, r, skip, n, cap, p, t, pass, cs, i - 1, st);
        let pcount = cs * (books[r.classbook as int].dimensions as int) + (i - 1);
        if pcount >= partitions_read(r) {
            prev
        } else {
            let q = prev.3[cs];
            let bk = r.residue_books@[r.classdata@[q]@[i - 1] as int]@[pass] as int;
            if bk >= 0 {
                let e = interleaved_read(books, bk, n, cap, skip, p, t, r.part_size as int,
                    books[bk].dimensions as int, (prev.0, prev.1, prev.2, prev.4, prev.5));
                (e.0, e.1, e.2, prev.3, e.3, e.4)
            } else {
                let z = r.begin + pcount * r.part_size + r.part_size;
                let ch = skip.len() as int;
                (prev.0, prev.1, prev.2, prev.3, z % ch, z / ch)
            }
        }
    }
}

/// The reading `st` once the first `m` class words of pass `pass` are
/// read over the channels interleaved: each starts at the first value of
/// its first partition; in the first pass it begins with its class value.
pub open spec fn inter_sets_read(books: Seq<Codebook>, r: Residue, skip: Seq<bool>, n: int, cap: int, p: int, t: int,
    pass: int, m: int, st: InterleavedClassReading) -> InterleavedClassReading
    decreases m,
{
    if m <= 0 {
        st
    } else {
        let prev = inter_sets_read(books, r, skip, n, cap, p, t, pass, m - 1, st);
        let cw = books[r.classbook as int].dimensions as int;
        let cs = m - 1;
        if cs * cw >= partitions_read(r) {
            prev
        } else {
            let ch = skip.len() as int;
            let z0 = r.begin + cs * cw * r.part_size;
            let st1 = if pass == 0 {
                let d = code_read(books[r.classbook as int], p, prev.1, t);
                (prev.0 && d.0, prev.1 + d.2, prev.2, prev.3.push(d.1), z0 % ch, z0 / ch)
            } else {
                (prev.0, prev.1, prev.2, prev.3, z0 % ch, z0 / ch)
            };
            inter_word_read(books, r, skip, n, cap, p, t, pass, cs, cw, st1)
        }
    }
}

/// The reading `st` once the first `k` passes over the channels
/// interleaved are read.
pub open spec fn inter_passes_read(books: Seq<Codebook>, r: Residue, skip: Seq<bool>, n: int, cap: int, p: int, t: int,
    k: int, st: InterleavedClassReading) -> InterleavedClassReading
    decreases k,
{
    if k <= 0 {
        st
    } else {
        inter_sets_read(books, r, skip, n, cap, p, t, k - 1, partitions_read(r),
            inter_passes_read(books, r, skip, n, cap, p, t, k - 1, st))
    }
}

/// The residue vectors that the channels interleaved read from the bits
/// `p` of a page that ends at bit `t`, after the vectors `out`: 8 passes
/// of `inter_passes_read`; nothing when no channel is decoded or the class
/// book has no dimensions.
pub open spec fn interleaved_residue_read(books: Seq<Codebook>, r: Residue, skip: Seq<bool>, n: int, cap: int, p: int,
    t: int, out: Seq<ResidueVector>) -> ResidueReading {
    if (forall|j: int| 0 <= j < skip.len() ==> skip[j]) || books[r.classbook as int].dimensions == 0 {
        (true, 0, out)
    } else {
        let e = inter_passes_read(books, r, skip, n, cap, p, t, 8, (true, 0, out, Seq::empty(), 0, 0));
        (e.0, e.1, e.2)
    }
}

proof fn lemma_inter_word_ok(books: Seq<Codebook>, r: Residue, skip: Seq<bool>, n: int, cap: int, p: int, t: int,
    pass: int, cs: int, i1: int, i2: int, st: InterleavedClassReading)
    requires
        0 <= i1 <= i2,
        inter_word_read(books, r, skip, n, cap, p, t, pass, cs, i2, st).0,
    ensures
        inter_word_read(books, r, skip, n, cap, p, t, pass, cs, i1, st).0,
    decreases i2,
{
    if i1 < i2 {
        lemma_inter_word_ok(books, r, skip, n, cap, p, t, pass, cs, i1, i2 - 1, st);
    }
}

proof fn lemma_inter_sets_ok(books: Seq<Codebook>, r: Residue, skip: Seq<bool>, n: int, cap: int, p: int, t: int,
    pass: int, m1: int, m2: int, st: InterleavedClassReading)
    requires
        0 <= m1 <= m2,
        inter_sets_read(books, r, skip, n, cap, p, t, pass, m2, st).0,
    ensures
        inter_sets_read(books, r, skip, n, cap, p, t, pass, m1, st).0,
    decreases m2,
{
    if m1 < m2 {
        let prev = inter_sets_read(books, r, skip, n, cap, p, t, pass, m2 - 1, st);
        let cw = books[r.classbook as int].dimensions as int;
        let cs = m2 - 1;
        if cs * cw < partitions_read(r) {
            let ch = skip.len() as int;
            let z0 = r.begin + cs * cw * r.part_size;
            let st1 = if pass == 0 {
                let d = code_read(books[r.classbook as int], p, prev.1, t);
                (prev.0 && d.0, prev.1 + d.2, prev.2, prev.3.push(d.1), z0 % ch, z0 / ch)
            } else {
                (prev.0, prev.1, prev.2, prev.3, z0 % ch, z0 / ch)
            };
            if cw >= 0 {
                lemma_inter_word_ok(books, r, skip, n, cap, p, t, pass, cs, 0, cw, st1);
            }
        }
        lemma_inter_sets_ok(books, r, skip, n, cap, p, t, pass, m1, m2 - 1, st);
    }
}

proof fn lemma_inter_passes_ok(books: Seq<Codebook>, r: Residue, skip: Seq<bool>, n: int, cap: int, p: int, t: int,
    k1: int, k2: int, st: InterleavedClassReading)
    requires
        0 <= k1 <= k2,
        partitions_read(r) >= 0,
        inter_passes_read(books, r, skip, n, cap, p, t, k2, st).0,
    ensures
        inter_passes_read(books, r, skip, n, cap, p, t, k1, st).0,
    decreases k2,
{
    if k1 < k2 {
        lemma_inter_sets_ok(books, r, skip, n, cap, p, t, k2 - 1, 0, partitions_read(r),
            inter_passes_read(books, r, skip, n, cap, p, t, k2 - 1, st));
        lemma_inter_passes_ok(books, r, skip, n, cap, p, t, k1, k2 - 1, st);
    }
}

proof fn lemma_inter_word_tail(books: Seq<Codebook>, r: Residue, skip: Seq<bool>, n: int, cap: int, p: int, t: int,
    pass: int, cs: int, i: int, i2: int, st: InterleavedClassReading)
    requires
        0 <= i <= i2,
        cs * (books[r.classbook as int].dimensions as int) + i >= partitions_read(r),
    ensures
        inter_word_read(books, r, skip, n, cap, p, t, pass, cs, i2, st)
            == inter_word_read(books, r, skip, n, cap, p, t, pass, cs, i, st),
    decreases i2,
{
    if i < i2 {
        lemma_inter_word_tail(books, r, skip, n, cap, p, t, pass, cs, i, i2 - 1, st);
    }
}

proof fn lemma_inter_sets_tail(books: Seq<Codebook>, r: Residue, skip: Seq<bool>, n: int, cap: int, p: int, t: int,
    pass: int, c: int, m: int, st: InterleavedClassReading)
    requires
        0 <= c <= m,
        books[r.classbook as int].dimensions >= 0,
        c * (books[r.classbook as int].dimensions as int) >= partitions_read(r),
    ensures
        inter_sets_read(books, r, skip, n, cap, p, t, pass, m, st)
            == inter_sets_read(books, r, skip, n, cap, p, t, pass, c, st),
    decreases m,
{
    if c < m {
        let cw = books[r.classbook as int].dimensions as int;
        vstd::arithmetic::mul::lemma_mul_inequality(c, m - 1, cw);
        lemma_inter_sets_tail(books, r, skip, n, cap, p, t, pass, c, m - 1, st);
    }
}

/// The class values read agree with those kept.
pub open spec fn values_agree(sets: Seq<usize>, ss: Seq<int>) -> bool {
    &&& sets.len() == ss.len()
    &&& forall|k: int| 0 <= k < sets.len() ==> sets[k] as int == #[trigger] ss[k]
}

/// The residue of type 2 over two or more channels: the partitions of
/// the channels interleaved, in 8 passes, each partition's classification
/// read (in the first pass) from the class book. Stops at the end of the
/// packet or where a partition fails; nothing is read when no channel is
/// decoded.
fn decode_interleaved_residue(f: &mut Vorbis, books: &Vec<Codebook>, r: &Residue, skip: &Vec<bool>,
    n: i32, cap: i32, out: &mut Vec<ResidueVector>)
    requires
        old(f).wf(),
        1 <= books@.len() <= 256,
        forall|i: int| 0 <= i < books@.len() ==> codebook_setup_ok(#[trigger] books@[i]),
        residue_ok(*r, 2, books@),
        2 <= skip@.len() <= 16,
        0 <= n <= cap <= 8192,
        vectors_ok(old(out)@, 0, books@, 2, skip@, cap as int),
    ensures
        final(f).wf(),
        final(f).same_setup(&*old(f)),
        vectors_ok(final(out)@, 0, books@, 2, skip@, cap as int),
        (forall|j: int| 0 <= j < skip@.len() ==> skip@[j]) ==> *final(f) == *old(f) && final(out)@ == old(out)@,
        0 <= old(f).valid_bits ==> {
            let e = interleaved_residue_read(books@, *r, skip@, n as int, cap as int, page_bits(*old(f)),
                bits_in_page(*old(f)), old(out)@);
            e.0 ==> final(out)@ == e.2
        },
{
    let ch = skip.len() as i32;
    let mut j: usize = 0;
    while j < skip.len() && skip[j]
        invariant
            j <= skip@.len(),
            forall|q: int| 0 <= q < j ==> skip@[q],
        decreases skip@.len() - j,
    {
        j = j + 1;
    }
    if j == skip.len() {
        return;
    }
    let live = j;
    let cb = &books[r.classbook as usize];
    proof { assert(codebook_setup_ok(books@[r.classbook as int])); }
    let cw = cb.dimensions;
    let ps = r.part_size as i32;
    let begin = r.begin as i32;
    let part_read = ((r.end - r.begin) / r.part_size) as i32;
    proof {
        vstd::arithmetic::div_mod::lemma_div_is_ordered((r.end - r.begin) as int, 0x100_0000, r.part_size as int);
        vstd::arithmetic::div_mod::lemma_div_pos_is_pos((r.end - r.begin) as int, r.part_size as int);
    }
    if cw == 0 {
        if part_read > 0 {
            decode_raw(f, cb);
        }
        return;
    }
    let ghost f0 = *f;
    let ghost p = page_bits(*old(f));
    let ghost tend = bits_in_page(*old(f));
    let ghost exact = 0 <= old(f).valid_bits;
    let ghost init: InterleavedClassReading = (true, 0, old(out)@, Seq::empty(), 0, 0);
    let ghost fin = inter_passes_read(books@, *r, skip@, n as int, cap as int, p, tend, 8, init);
    proof {
        vstd::arithmetic::power2::lemma2_to64();
        lemma_page_bits_nonneg(*old(f));
        assert(fin.0 == interleaved_residue_read(books@, *r, skip@, n as int, cap as int, page_bits(*old(f)),
            bits_in_page(*old(f)), old(out)@).0);
        if exact {
            assert(pow2(0) == 1);
            assert(page_bits(*old(f)) == p / pow2(0) as int);
            assert(reading_at(*old(f), p, 0, tend));
        }
    }
    let mut sets: Vec<usize> = Vec::new();
    let mut pass: usize = 0;
    while pass < 8
        invariant
            f.wf(),
            f.same_setup(&*old(f)),
            1 <= books@.len() <= 256,
            forall|i: int| 0 <= i < books@.len() ==> codebook_setup_ok(#[trigger] books@[i]),
            residue_ok(*r, 2, books@),
            cb == books@[r.classbook as int],
            1 <= cw < 0x1_0000,
            cw == cb.dimensions,
            ps == r.part_size,
            begin == r.begin,
            part_read == (r.end - r.begin) / (r.part_size as int),
            0 <= part_read <= 0x100_0000,
            ch == skip@.len(),
            2 <= ch <= 16,
            live < skip@.len(),
            !skip@[live as int],
            0 <= n <= cap <= 8192,
            pass <= 8,
            pass > 0 ==> sets@.len() * cw >= part_read,
            pass == 0 ==> sets@.len() == 0,
            forall|k: int| 0 <= k < sets@.len() ==> #[trigger] sets@[k] < r.classdata@.len(),
            vectors_ok(out@, 0, books@, 2, skip@, cap as int),
            p == page_bits(f0),
            tend == bits_in_page(f0),
            exact == (0 <= f0.valid_bits),
            f0 == *old(f),
            init == (true, 0int, old(out)@, Seq::<int>::empty(), 0int, 0int),
            fin == inter_passes_read(books@, *r, skip@, n as int, cap as int, p, tend, 8, init),
            fin.0 == interleaved_residue_read(books@, *r, skip@, n as int, cap as int, page_bits(*old(f)),
                bits_in_page(*old(f)), old(out)@).0,
            exact && fin.0 ==> {
                let e = inter_passes_read(books@, *r, skip@, n as int, cap as int, p, tend, pass as int, init);
                e.0 && reading_at(*f, p, e.1, tend) && out@ == e.2 && values_agree(sets@, e.3)
            },
        decreases 8 - pass,
    {
        let ghost ep = inter_passes_read(books@, *r, skip@, n as int, cap as int, p, tend, pass as int, init);
        proof {
            if exact && fin.0 {
                lemma_inter_passes_ok(books@, *r, skip@, n as int, cap as int, p, tend, pass + 1, 8, init);
            }
        }
        let mut pcount: i32 = 0;
        let mut class_set: usize = 0;
        while pcount < part_read
            invariant
                f.wf(),
                f.same_setup(&*old(f)),
                1 <= books@.len() <= 256,
                forall|i: int| 0 <= i < books@.len() ==> codebook_setup_ok(#[trigger] books@[i]),
                residue_ok(*r, 2, books@),
                cb == books@[r.classbook as int],
                1 <= cw < 0x1_0000,
                cw == cb.dimensions,
                ps == r.part_size,
                begin == r.begin,
                part_read == (r.end - r.begin) / (r.part_size as int),
                0 <= part_read <= 0x100_0000,
                ch == skip@.len(),
                2 <= ch <= 16,
                live < skip@.len(),
                !skip@[live as int],
                0 <= n <= cap <= 8192,
                pass < 8,
                0 <= pcount <= part_read,
                pcount <= class_set * cw,
                pcount < part_read ==> pcount == class_set * cw,
                class_set <= part_read,
                pass > 0 ==> sets@.len() * cw >= part_read,
                pass == 0 ==> sets@.len() == class_set,
                forall|k: int| 0 <= k < sets@.len() ==> #[trigger] sets@[k] < r.classdata@.len(),
                vectors_ok(out@, 0, books@, 2, skip@, cap as int),
                p == page_bits(f0),
            tend == bits_in_page(f0),
            exact == (0 <= f0.valid_bits),
            f0 == *old(f),
            init == (true, 0int, old(out)@, Seq::<int>::empty(), 0int, 0int),
            fin == inter_passes_read(books@, *r, skip@, n as int, cap as int, p, tend, 8, init),
            fin.0 == interleaved_residue_read(books@, *r, skip@, n as int, cap as int, page_bits(*old(f)),
                bits_in_page(*old(f)), old(out)@).0,
                ep == inter_passes_read(books@, *r, skip@, n as int, cap as int, p, tend, pass as int, init),
                exact && fin.0 ==> inter_sets_read(books@, *r, skip@, n as int, cap as int, p, tend, pass as int,
                    part_read as int, ep).0,
                exact && fin.0 ==> {
                    let e = inter_sets_read(books@, *r, skip@, n as int, cap as int, p, tend, pass as int,
                        class_set as int, ep);
                    e.0 && reading_at(*f, p, e.1, tend) && out@ == e.2 && values_agree(sets@, e.3)
                },
            decreases part_read - pcount,
        {
            proof {
                lemma_part_bound(pcount as int, (r.end - r.begin) as int, ps as int);
                assert(class_set <= class_set * cw) by (nonlinear_arith) requires cw >= 1, class_set >= 0;
            }
            let ghost es = inter_sets_read(books@, *r, skip@, n as int, cap as int, p, tend, pass as int,
                class_set as int, ep);
            let z0 = begin + pcount * ps;
            proof { lemma_split(z0 as int, ch as int); }
            let mut ci = z0 % ch;
            let mut pi = z0 / ch;
            let ghost dq = code_read(*cb, p, es.1, tend);
            let ghost st1: InterleavedClassReading = if pass == 0 {
                (es.0 && dq.0, es.1 + dq.2, es.2, es.3.push(dq.1), ci as int, pi as int)
            } else {
                (es.0, es.1, es.2, es.3, ci as int, pi as int)
            };
            proof {
                if exact && fin.0 {
                    lemma_inter_sets_ok(books@, *r, skip@, n as int, cap as int, p, tend, pass as int, class_set + 1,
                        part_read as int, ep);
                    lemma_inter_word_ok(books@, *r, skip@, n as int, cap as int, p, tend, pass as int,
                        class_set as int, 0, cw as int, st1);
                }
            }
            if pass == 0 {
                let q = decode_at(f, cb, Ghost(p), Ghost(es.1), Ghost(tend));
                if q == EOP {
                    proof {
                        if exact && fin.0 {
                            assert(dq.0);
                            assert(q >= 0);
                        }
                        assert(!(exact && fin.0));
                    }
                    return;
                }
                sets.push(q as usize);
            }
            proof {
                if pass > 0 {
                    if class_set >= sets@.len() {
                        vstd::arithmetic::mul::lemma_mul_inequality(sets@.len() as int, class_set as int, cw as int);
                    }
                }
            }
            let q = sets[class_set];
            proof {
                if exact && fin.0 {
                    assert(values_agree(sets@, st1.3));
                    assert(q as int == st1.3[class_set as int]);
                }
            }
            let mut i: i32 = 0;
            while i < cw && pcount < part_read
                invariant
                    f.wf(),
                    f.same_setup(&*old(f)),
                    1 <= books@.len() <= 256,
                    forall|i: int| 0 <= i < books@.len() ==> codebook_setup_ok(#[trigger] books@[i]),
                    residue_ok(*r, 2, books@),
                    cb == books@[r.classbook as int],
                    1 <= cw < 0x1_0000,
                    cw == cb.dimensions,
                    ps == r.part_size,
                    begin == r.begin,
                    part_read == (r.end - r.begin) / (r.part_size as int),
                    0 <= part_read <= 0x100_0000,
                    ch == skip@.len(),
                    2 <= ch <= 16,
                    live < skip@.len(),
                    !skip@[live as int],
                    0 <= n <= cap <= 8192,
                    pass < 8,
                    0 <= i <= cw,
                    pcount == class_set * cw + i,
                    pcount <= part_read,
                    q < r.classdata@.len(),
                    0 <= ci < ch,
                    0 <= pi,
                    pi * ch + ci < 0x400_0000,
                    vectors_ok(out@, 0, books@, 2, skip@, cap as int),
                    p == page_bits(f0),
            tend == bits_in_page(f0),
            exact == (0 <= f0.valid_bits),
            f0 == *old(f),
            init == (true, 0int, old(out)@, Seq::<int>::empty(), 0int, 0int),
            fin == inter_passes_read(books@, *r, skip@, n as int, cap as int, p, tend, 8, init),
            fin.0 == interleaved_residue_read(books@, *r, skip@, n as int, cap as int, page_bits(*old(f)),
                bits_in_page(*old(f)), old(out)@).0,
                    exact && fin.0 ==> inter_word_read(books@, *r, skip@, n as int, cap as int, p, tend, pass as int,
                        class_set as int, cw as int, st1).0,
                    exact && fin.0 ==> q as int == st1.3[class_set as int],
                    exact && fin.0 ==> {
                        let e = inter_word_read(books@, *r, skip@, n as int, cap as int, p, tend, pass as int,
                            class_set as int, i as int, st1);
                        e.0 && reading_at(*f, p, e.1, tend) && out@ == e.2 && e.3 == st1.3 && ci == e.4 && pi == e.5
                    },
                decreases cw - i,
            {
                let ghost ew = inter_word_read(books@, *r, skip@, n as int, cap as int, p, tend, pass as int,
                    class_set as int, i as int, st1);
                proof {
                    if exact && fin.0 {
                        lemma_inter_word_ok(books@, *r, skip@, n as int, cap as int, p, tend, pass as int,
                            class_set as int, i + 1, cw as int, st1);
                    }
                }
                proof { lemma_class_bound(*r, 2, books@, q as int, i as int); }
                let cls = r.classdata[q][i as usize] as usize;
                let bk = r.residue_books[cls][pass];
                if bk >= 0 {
                    if !decode_interleaved(f, books, bk as usize, &mut ci, &mut pi, n, cap, ps, skip, out, Ghost(p),
                        Ghost(ew.1), Ghost(tend)) {
                        proof {
                            assert(!(exact && fin.0));
                        }
                        return;
                    }
                } else {
                    proof { lemma_part_bound(pcount as int, (r.end - r.begin) as int, ps as int); }
                    let z = begin + pcount * ps + ps;
                    proof { lemma_split(z as int, ch as int); }
                    ci = z % ch;
                    pi = z / ch;
                }
                i = i + 1;
                pcount = pcount + 1;
            }
            proof {
                assert((class_set + 1) * cw == class_set * cw + cw) by (nonlinear_arith);
                if exact && fin.0 && i < cw {
                    lemma_inter_word_tail(books@, *r, skip@, n as int, cap as int, p, tend, pass as int,
                        class_set as int, i as int, cw as int, st1);
                }
            }
            class_set = class_set + 1;
        }
        proof {
            if exact && fin.0 {
                lemma_inter_sets_tail(books@, *r, skip@, n as int, cap as int, p, tend, pass as int, class_set as int,
                    part_read as int, ep);
            }
        }
        pass = pass + 1;
    }
}

/// A `ResidueReading` with the class words read so far: for each, the
/// class-book value read for each channel (0 for a channel not decoded).
pub type ClassReading = (bool, int, Seq<ResidueVector>, Seq<Seq<int>>);

/// How many partitions of each channel a residue reads.
pub open spec fn partitions_read(r: Residue) -> int {
    (r.end - r.begin) / (r.part_size as int)
}

/// The reading `st` once the channels `0..j` have read partition `pcount`
/// in pass `pass`, the partition being digit `i` of class word `cs`: each
/// decoded channel takes the classification that digit `i` of its value in
/// class word `cs` names, and reads the partition with that
/// classification's book for the pass, if it has one.
pub open spec fn channels_read(books: Seq<Codebook>, r: Residue, rtype: u16, skip: Seq<bool>, n: int, p: int, t: int,
    pass: int, cs: int, i: int, pcount: int, j: int, st: ClassReading) -> ClassReading
    decreases j,
{
    if j <= 0 {
        st
    } else {
        let prev = channels_read(books, r, rtype, skip, n, p, t, pass, cs, i, pcount, j - 1, st);
        if skip[j - 1] {
            prev
        } else {
            let q = prev.3[cs][j - 1];
            let cls = r.classdata@[q]@[i] as int;
            let bk = r.residue_books@[cls]@[pass] as int;
            if bk < 0 {
                prev
            } else {
                let e = partition_read(books, bk, rtype, (j - 1) as u32, r.begin + pcount * r.part_size,
                    r.part_size as int, n, p, t, (prev.0, prev.1, prev.2));
                (e.0, e.1, e.2, prev.3)
            }
        }
    }
}

/// The reading `st` once the partitions of the first `i` digits of class
/// word `cs` are read in pass `pass` (partition `cs * cw + i` for digit
/// `i`, up to the last partition).
pub open spec fn class_word_read(books: Seq<Codebook>, r: Residue, rtype: u16, skip: Seq<bool>, n: int, p: int, t: int,
    pass: int, cs: int, i: int, st: ClassReading) -> ClassReading
    decreases i,
{
    if i <= 0 {
        st
    } else {
        let prev = class_word_read(books, r, rtype, skip, n, p, t, pass, cs, i - 1, st);
        let pcount = cs * (books[r.classbook as int].dimensions as int) + (i - 1);
        if pcount >= partitions_read(r) {
            prev
        } else {
            channels_read(books, r, rtype, skip, n, p, t, pass, cs, i - 1, pcount, skip.len() as int, prev)
        }
    }
}

/// The reading `st` once the class words of the channels `0..j` are read
/// with the class book `cb`, one after the other (0 for a channel not
/// decoded).
pub open spec fn class_row_read(cb: Codebook, p: int, t: int, skip: Seq<bool>, j: int, st: (bool, int, Seq<int>))
    -> (bool, int, Seq<int>)
    decreases j,
{
    if j <= 0 {
        st
    } else {
        let prev = class_row_read(cb, p, t, skip, j - 1, st);
        if skip[j - 1] {
            (prev.0, prev.1, prev.2.push(0))
        } else {
            let d = code_read(cb, p, prev.1, t);
            (prev.0 && d.0, prev.1 + d.2, prev.2.push(d.1))
        }
    }
}

/// The reading `st` once the first `m` class words of pass `pass` are
/// read: in the first pass each class word begins with the channels' class
/// values; then the partitions of its digits are read.
pub open spec fn class_sets_read(books: Seq<Codebook>, r: Residue, rtype: u16, skip: Seq<bool>, n: int, p: int, t: int,
    pass: int, m: int, st: ClassReading) -> ClassReading
    decreases m,
{
    if m <= 0 {
        st
    } else {
        let prev = class_sets_read(books, r, rtype, skip, n, p, t, pass, m - 1, st);
        let cw = books[r.classbook as int].dimensions as int;
        let cs = m - 1;
        if cs * cw >= partitions_read(r) {
            prev
        } else {
            let st1 = if pass == 0 {
                let row = class_row_read(books[r.classbook as int], p, t, skip, skip.len() as int,
                    (prev.0, prev.1, Seq::empty()));
                (row.0, row.1, prev.2, prev.3.push(row.2))
            } else {
                prev
            };
            class_word_read(books, r, rtype, skip, n, p, t, pass, cs, cw, st1)
        }
    }
}

/// The reading `st` once the first `k` passes are read.
pub open spec fn passes_read(books: Seq<Codebook>, r: Residue, rtype: u16, skip: Seq<bool>, n: int, p: int, t: int,
    k: int, st: ClassReading) -> ClassReading
    decreases k,
{
    if k <= 0 {
        st
    } else {
        class_sets_read(books, r, rtype, skip, n, p, t, k - 1, partitions_read(r),
            passes_read(books, r, rtype, skip, n, p, t, k - 1, st))
    }
}

/// The residue vectors that the channels read one by one from the bits
/// `p` of a page that ends at bit `t`, after the vectors `out`: 8 passes
/// of `passes_read`; nothing when the class book has no dimensions.
pub open spec fn channel_residue_read(books: Seq<Codebook>, r: Residue, rtype: u16, skip: Seq<bool>, n: int, p: int,
    t: int, out: Seq<ResidueVector>) -> ResidueReading {
    if books[r.classbook as int].dimensions == 0 {
        (true, 0, out)
    } else {
        let e = passes_read(books, r, rtype, skip, n, p, t, 8, (true, 0, out, Seq::empty()));
        (e.0, e.1, e.2)
    }
}

/// A partition read well began well.
proof fn lemma_partition_ok(books: Seq<Codebook>, b: int, rtype: u16, channel: u32, offset: int, part: int, n: int,
    p: int, t: int, st: ResidueReading)
    requires
        partition_read(books, b, rtype, channel, offset, part, n, p, t, st).0,
    ensures
        st.0,
{
    let dims = books[b].dimensions as int;
    if rtype == 0 {
        if part / dims >= 0 {
            lemma_part0_ok(books, b, rtype, channel, offset, part, n, p, t, 0, part / dims, st);
        }
    } else {
        if (part + dims - 1) / dims >= 0 {
            lemma_part1_ok(books, b, rtype, channel, offset, part, n, p, t, 0, (part + dims - 1) / dims, st);
        }
    }
}

proof fn lemma_channels_ok(books: Seq<Codebook>, r: Residue, rtype: u16, skip: Seq<bool>, n: int, p: int, t: int,
    pass: int, cs: int, i: int, pcount: int, j1: int, j2: int, st: ClassReading)
    requires
        0 <= j1 <= j2,
        channels_read(books, r, rtype, skip, n, p, t, pass, cs, i, pcount, j2, st).0,
    ensures
        channels_read(books, r, rtype, skip, n, p, t, pass, cs, i, pcount, j1, st).0,
    decreases j2,
{
    if j1 < j2 {
        let prev = channels_read(books, r, rtype, skip, n, p, t, pass, cs, i, pcount, j2 - 1, st);
        if !skip[j2 - 1] {
            let q = prev.3[cs][j2 - 1];
            let cls = r.classdata@[q]@[i] as int;
            let bk = r.residue_books@[cls]@[pass] as int;
            if bk >= 0 {
                lemma_partition_ok(books, bk, rtype, (j2 - 1) as u32, r.begin + pcount * r.part_size,
                    r.part_size as int, n, p, t, (prev.0, prev.1, prev.2));
            }
        }
        lemma_channels_ok(books, r, rtype, skip, n, p, t, pass, cs, i, pcount, j1, j2 - 1, st);
    }
}

proof fn lemma_class_word_ok(books: Seq<Codebook>, r: Residue, rtype: u16, skip: Seq<bool>, n: int, p: int, t: int,
    pass: int, cs: int, i1: int, i2: int, st: ClassReading)
    requires
        0 <= i1 <= i2,
        class_word_read(books, r, rtype, skip, n, p, t, pass, cs, i2, st).0,
    ensures
        class_word_read(books, r, rtype, skip, n, p, t, pass, cs, i1, st).0,
    decreases i2,
{
    if i1 < i2 {
        let prev = class_word_read(books, r, rtype, skip, n, p, t, pass, cs, i2 - 1, st);
        let pcount = cs * (books[r.classbook as int].dimensions as int) + (i2 - 1);
        if pcount < partitions_read(r) {
            lemma_channels_ok(books, r, rtype, skip, n, p, t, pass, cs, i2 - 1, pcount, 0, skip.len() as int, prev);
        }
        lemma_class_word_ok(books, r, rtype, skip, n, p, t, pass, cs, i1, i2 - 1, st);
    }
}

proof fn lemma_class_row_ok(cb: Codebook, p: int, t: int, skip: Seq<bool>, j1: int, j2: int, st: (bool, int, Seq<int>))
    requires
        0 <= j1 <= j2,
        class_row_read(cb, p, t, skip, j2, st).0,
    ensures
        class_row_read(cb, p, t, skip, j1, st).0,
    decreases j2,
{
    if j1 < j2 {
        lemma_class_row_ok(cb, p, t, skip, j1, j2 - 1, st);
    }
}

proof fn lemma_class_sets_ok(books: Seq<Codebook>, r: Residue, rtype: u16, skip: Seq<bool>, n: int, p: int, t: int,
    pass: int, m1: int, m2: int, st: ClassReading)
    requires
        0 <= m1 <= m2,
        books[r.classbook as int].dimensions >= 0,
        class_sets_read(books, r, rtype, skip, n, p, t, pass, m2, st).0,
    ensures
        class_sets_read(books, r, rtype, skip, n, p, t, pass, m1, st).0,
    decreases m2,
{
    if m1 < m2 {
        let prev = class_sets_read(books, r, rtype, skip, n, p, t, pass, m2 - 1, st);
        let cw = books[r.classbook as int].dimensions as int;
        let cs = m2 - 1;
        if cs * cw < partitions_read(r) {
            let st1 = if pass == 0 {
                let row = class_row_read(books[r.classbook as int], p, t, skip, skip.len() as int,
                    (prev.0, prev.1, Seq::empty()));
                (row.0, row.1, prev.2, prev.3.push(row.2))
            } else {
                prev
            };
            lemma_class_word_ok(books, r, rtype, skip, n, p, t, pass, cs, 0, cw, st1);
            if pass == 0 {
                lemma_class_row_ok(books[r.classbook as int], p, t, skip, 0, skip.len() as int,
                    (prev.0, prev.1, Seq::empty()));
            }
        }
        lemma_class_sets_ok(books, r, rtype, skip, n, p, t, pass, m1, m2 - 1, st);
    }
}

proof fn lemma_passes_ok(books: Seq<Codebook>, r: Residue, rtype: u16, skip: Seq<bool>, n: int, p: int, t: int,
    k1: int, k2: int, st: ClassReading)
    requires
        0 <= k1 <= k2,
        books[r.classbook as int].dimensions >= 0,
        partitions_read(r) >= 0,
        passes_read(books, r, rtype, skip, n, p, t, k2, st).0,
    ensures
        passes_read(books, r, rtype, skip, n, p, t, k1, st).0,
    decreases k2,
{
    if k1 < k2 {
        lemma_class_sets_ok(books, r, rtype, skip, n, p, t, k2 - 1, 0, partitions_read(r),
            passes_read(books, r, rtype, skip, n, p, t, k2 - 1, st));
        lemma_passes_ok(books, r, rtype, skip, n, p, t, k1, k2 - 1, st);
    }
}

/// Class words past the last partition read nothing.
proof fn lemma_class_sets_tail(books: Seq<Codebook>, r: Residue, rtype: u16, skip: Seq<bool>, n: int, p: int, t: int,
    pass: int, c: int, m: int, st: ClassReading)
    requires
        0 <= c <= m,
        books[r.classbook as int].dimensions >= 0,
        c * (books[r.classbook as int].dimensions as int) >= partitions_read(r),
    ensures
        class_sets_read(books, r, rtype, skip, n, p, t, pass, m, st)
            == class_sets_read(books, r, rtype, skip, n, p, t, pass, c, st),
    decreases m,
{
    if c < m {
        let cw = books[r.classbook as int].dimensions as int;
        vstd::arithmetic::mul::lemma_mul_inequality(c, m - 1, cw);
        lemma_class_sets_tail(books, r, rtype, skip, n, p, t, pass, c, m - 1, st);
    }
}

/// Digits of a class word past the last partition read nothing.
proof fn lemma_class_word_tail(books: Seq<Codebook>, r: Residue, rtype: u16, skip: Seq<bool>, n: int, p: int, t: int,
    pass: int, cs: int, i: int, i2: int, st: ClassReading)
    requires
        0 <= i <= i2,
        cs * (books[r.classbook as int].dimensions as int) + i >= partitions_read(r),
    ensures
        class_word_read(books, r, rtype, skip, n, p, t, pass, cs, i2, st)
            == class_word_read(books, r, rtype, skip, n, p, t, pass, cs, i, st),
    decreases i2,
{
    if i < i2 {
        lemma_class_word_tail(books, r, rtype, skip, n, p, t, pass, cs, i, i2 - 1, st);
    }
}

/// The vectors a partition of type 0 reads well are the vectors of that
/// partition, in order.
proof fn lemma_part0_vectors(books: Seq<Codebook>, b: int, rtype: u16, channel: u32, offset: int, part: int, n: int,
    p: int, t: int, k: int, st: ResidueReading)
    requires
        0 <= k,
        0 <= b < 0x1_0000,
        0 < books[b].dimensions < 0x1_0000,
        rtype == 0,
        0 <= offset,
        0 < part,
        n <= 0x1000_0000,
        part0_read(books, b, rtype, channel, offset, part, n, p, t, k, st).0,
    ensures
        ({
            let e = part0_read(books, b, rtype, channel, offset, part, n, p, t, k, st);
            &&& e.2.len() == st.2.len() + k
            &&& e.2.subrange(0, st.2.len() as int) == st.2
            &&& partition_vectors_ok(e.2, st.2.len() as int, b, rtype, channel, offset, part, books[b].dimensions as int)
        }),
    decreases k,
{
    if k > 0 {
        lemma_part0_ok(books, b, rtype, channel, offset, part, n, p, t, k - 1, k, st);
        lemma_part0_vectors(books, b, rtype, channel, offset, part, n, p, t, k - 1, st);
        let prev = part0_read(books, b, rtype, channel, offset, part, n, p, t, k - 1, st);
        let e = part0_read(books, b, rtype, channel, offset, part, n, p, t, k, st);
        let dims = books[b].dimensions as int;
        vstd::arithmetic::div_mod::lemma_div_pos_is_pos(part, dims);
        vstd::arithmetic::div_mod::lemma_div_is_ordered_by_denominator(part, 1, dims);
        assert(e.2.subrange(0, st.2.len() as int) =~= prev.2.subrange(0, st.2.len() as int));
        assert forall|x: int| st.2.len() <= x < e.2.len() implies
            partition_vector_ok(#[trigger] e.2[x], b, rtype, channel, offset, part, dims, x - st.2.len()) by {
            if x < e.2.len() - 1 {
                assert(e.2[x] == prev.2[x]);
            }
        }
    }
}

/// The vectors a partition of type 1 or 2 reads well are the vectors of
/// that partition, in order.
proof fn lemma_part1_vectors(books: Seq<Codebook>, b: int, rtype: u16, channel: u32, offset: int, part: int, n: int,
    p: int, t: int, m: int, st: ResidueReading)
    requires
        0 <= m,
        0 <= b < 0x1_0000,
        0 < books[b].dimensions < 0x1_0000,
        rtype != 0,
        0 <= offset,
        0 < part,
        n <= 0x1000_0000,
        m * (books[b].dimensions as int) < part + books[b].dimensions,
        part1_read(books, b, rtype, channel, offset, part, n, p, t, m, st).0,
    ensures
        ({
            let e = part1_read(books, b, rtype, channel, offset, part, n, p, t, m, st);
            &&& e.2.len() == st.2.len() + m
            &&& e.2.subrange(0, st.2.len() as int) == st.2
            &&& partition_vectors_ok(e.2, st.2.len() as int, b, rtype, channel, offset, part, books[b].dimensions as int)
        }),
    decreases m,
{
    if m > 0 {
        let dims = books[b].dimensions as int;
        lemma_part1_ok(books, b, rtype, channel, offset, part, n, p, t, m - 1, m, st);
        assert((m - 1) * dims < part + dims) by (nonlinear_arith)
            requires m * dims < part + dims, dims > 0, m > 0;
        assert((m - 1) * dims == m * dims - dims) by (nonlinear_arith);
        assert(0 <= (m - 1) * dims) by (nonlinear_arith) requires m >= 1, dims > 0;
        lemma_part1_vectors(books, b, rtype, channel, offset, part, n, p, t, m - 1, st);
        let prev = part1_read(books, b, rtype, channel, offset, part, n, p, t, m - 1, st);
        let e = part1_read(books, b, rtype, channel, offset, part, n, p, t, m, st);
        assert(e.2.subrange(0, st.2.len() as int) =~= prev.2.subrange(0, st.2.len() as int));
        assert forall|x: int| st.2.len() <= x < e.2.len() implies
            partition_vector_ok(#[trigger] e.2[x], b, rtype, channel, offset, part, dims, x - st.2.len()) by {
            if x < e.2.len() - 1 {
                assert(e.2[x] == prev.2[x]);
            }
        }
    }
}

/// In pass `pass`, partition `pcount` of channel `j` (digit `i` of class
/// word `cs`) is read with the book that the pass gives the
/// classification named by digit `i` of the channel's class value `q`,
/// most significant digit first: nothing is read where that book is -1;
/// else, read well, the partition at `begin + pcount * part_size` adds its
/// vectors after those before, in order, each with that book and channel.
pub proof fn lemma_partition_book(books: Seq<Codebook>, r: Residue, rtype: u16, skip: Seq<bool>, n: int, p: int,
    t: int, pass: int, cs: int, i: int, pcount: int, j: int, st: ClassReading)
    requires
        residue_ok(r, rtype, books),
        forall|k: int| 0 <= k < books.len() ==> codebook_setup_ok(#[trigger] books[k]),
        0 <= j < skip.len(),
        !skip[j],
        0 <= pass < 8,
        0 <= i < books[r.classbook as int].dimensions,
        0 <= pcount < partitions_read(r),
        0 <= n <= 8192,
        0 <= channels_read(books, r, rtype, skip, n, p, t, pass, cs, i, pcount, j, st).3[cs][j] < r.classdata@.len(),
        channels_read(books, r, rtype, skip, n, p, t, pass, cs, i, pcount, j + 1, st).0,
    ensures
        ({
            let prev = channels_read(books, r, rtype, skip, n, p, t, pass, cs, i, pcount, j, st);
            let next = channels_read(books, r, rtype, skip, n, p, t, pass, cs, i, pcount, j + 1, st);
            let q = prev.3[cs][j];
            let cw = books[r.classbook as int].dimensions as int;
            let bk = r.residue_books@[class_digit(q, r.classifications as int, cw, i)]@[pass] as int;
            &&& bk < 0 ==> next == prev
            &&& bk >= 0 ==> next.2.len() == prev.2.len() + partition_vectors(rtype, r.part_size as int,
                    books[bk].dimensions as int)
                && next.2.subrange(0, prev.2.len() as int) == prev.2
                && partition_vectors_ok(next.2, prev.2.len() as int, bk, rtype, j as u32,
                    r.begin + pcount * r.part_size, r.part_size as int, books[bk].dimensions as int)
        }),
{
    let prev = channels_read(books, r, rtype, skip, n, p, t, pass, cs, i, pcount, j, st);
    let q = prev.3[cs][j];
    let cw = books[r.classbook as int].dimensions as int;
    assert(r.classdata@[q]@[i] == class_digit(q, r.classifications as int, cw, i));
    lemma_class_bound(r, rtype, books, q, i);
    let cls = r.classdata@[q]@[i] as int;
    let bk = r.residue_books@[cls]@[pass] as int;
    if bk >= 0 {
        let dims = books[bk].dimensions as int;
        let offset = r.begin + pcount * r.part_size;
        let part = r.part_size as int;
        let st0: ResidueReading = (prev.0, prev.1, prev.2);
        assert(codebook_setup_ok(books[bk]));
        lemma_part_bound(pcount, (r.end - r.begin) as int, part);
        assert(dims > 0);
        if rtype == 0 {
            lemma_part0_vectors(books, bk, rtype, j as u32, offset, part, n, p, t, part / dims, st0);
        } else {
            vstd::arithmetic::div_mod::lemma_fundamental_div_mod(part + dims - 1, dims);
            vstd::arithmetic::div_mod::lemma_mod_pos_bound(part + dims - 1, dims);
            let m = (part + dims - 1) / dims;
            assert(m * dims < part + dims) by (nonlinear_arith)
                requires part + dims - 1 == dims * m + (part + dims - 1) % dims, 0 <= (part + dims - 1) % dims;
            vstd::arithmetic::div_mod::lemma_div_pos_is_pos(part + dims - 1, dims);
            lemma_part1_vectors(books, bk, rtype, j as u32, offset, part, n, p, t, m, st0);
        }
    }
}

/// The class values read agree with the rows kept.
pub open spec fn sets_agree(sets: Seq<Vec<usize>>, ss: Seq<Seq<int>>) -> bool {
    &&& sets.len() == ss.len()
    &&& forall|k: int| 0 <= k < sets.len() ==> (#[trigger] ss[k]).len() == sets[k]@.len()
    &&& forall|k: int, j: int| 0 <= k < sets.len() && 0 <= j < sets[k]@.len() ==> sets[k]@[j] as int == #[trigger] ss[k][j]
}

/// The residue of each decoded channel on its own: in 8 passes, each
/// partition of each channel (the channels in turn), its classification
/// read in the first pass from the class book (for the decoded channels
/// only). Stops at the end of the packet or where a partition fails.
fn decode_channel_residue(f: &mut Vorbis, books: &Vec<Codebook>, r: &Residue, rtype: u16, skip: &Vec<bool>,
    cap: i32, out: &mut Vec<ResidueVector>)
    requires
        old(f).wf(),
        1 <= books@.len() <= 256,
        forall|i: int| 0 <= i < books@.len() ==> codebook_setup_ok(#[trigger] books@[i]),
        residue_ok(*r, rtype, books@),
        !(rtype == 2 && skip@.len() >= 2),
        1 <= skip@.len() <= 16,
        0 <= cap <= 8192,
        vectors_ok(old(out)@, 0, books@, rtype, skip@, cap as int),
    ensures
        final(f).wf(),
        final(f).same_setup(&*old(f)),
        vectors_ok(final(out)@, 0, books@, rtype, skip@, cap as int),
        (forall|j: int| 0 <= j < skip@.len() ==> skip@[j]) ==> *final(f) == *old(f) && final(out)@ == old(out)@,
        0 <= old(f).valid_bits ==> {
            let e = channel_residue_read(books@, *r, rtype, skip@, cap as int, page_bits(*old(f)), bits_in_page(*old(f)),
                old(out)@);
            e.0 ==> final(out)@ == e.2
        },
{
    let ghost all_skipped = forall|j: int| 0 <= j < skip@.len() ==> skip@[j];
    let cb = &books[r.classbook as usize];
    proof { assert(codebook_setup_ok(books@[r.classbook as int])); }
    let cw = cb.dimensions;
    let ps = r.part_size as i32;
    let begin = r.begin as i32;
    let part_read = ((r.end - r.begin) / r.part_size) as i32;
    proof {
        vstd::arithmetic::div_mod::lemma_div_is_ordered((r.end - r.begin) as int, 0x100_0000, r.part_size as int);
        vstd::arithmetic::div_mod::lemma_div_pos_is_pos((r.end - r.begin) as int, r.part_size as int);
    }
    if cw == 0 {
        if part_read > 0 {
            let mut j: usize = 0;
            while j < skip.len()
                invariant
                    *f == *old(f),
                    old(f).wf(),
                    codebook_setup_ok(*cb),
                    out@ == old(out)@,
                    vectors_ok(out@, 0, books@, rtype, skip@, cap as int),
                    j <= skip@.len(),
                    forall|q: int| 0 <= q < j ==> skip@[q],
                    cb == books@[r.classbook as int],
                    cw == cb.dimensions,
                    cw == 0,
                decreases skip@.len() - j,
            {
                if !skip[j] {
                    decode_raw(f, cb);
                    return;
                }
                j = j + 1;
            }
        }
        return;
    }
    let ghost f0 = *f;
    let ghost p = page_bits(*old(f));
    let ghost tend = bits_in_page(*old(f));
    let ghost exact = 0 <= old(f).valid_bits;
    let ghost init: ClassReading = (true, 0, old(out)@, Seq::empty());
    let ghost fin = passes_read(books@, *r, rtype, skip@, cap as int, p, tend, 8, init);
    proof {
        vstd::arithmetic::power2::lemma2_to64();
        lemma_page_bits_nonneg(*old(f));
        assert(fin.0 == channel_residue_read(books@, *r, rtype, skip@, cap as int, page_bits(*old(f)),
            bits_in_page(*old(f)), old(out)@).0);
        if exact {
            assert(pow2(0) == 1);
            assert(page_bits(*old(f)) == p / pow2(0) as int);
            assert(reading_at(*old(f), p, 0, tend));
        }
    }
    let mut sets: Vec<Vec<usize>> = Vec::new();
    let mut pass: usize = 0;
    while pass < 8
        invariant
            f.wf(),
            f.same_setup(&*old(f)),
            all_skipped ==> *f == f0 && out@ == old(out)@,
            all_skipped == forall|j: int| 0 <= j < skip@.len() ==> skip@[j],
            f0 == *old(f),
            1 <= books@.len() <= 256,
            forall|i: int| 0 <= i < books@.len() ==> codebook_setup_ok(#[trigger] books@[i]),
            residue_ok(*r, rtype, books@),
            cb == books@[r.classbook as int],
            1 <= cw < 0x1_0000,
            cw == cb.dimensions,
            ps == r.part_size,
            begin == r.begin,
            part_read == (r.end - r.begin) / (r.part_size as int),
            0 <= part_read <= 0x100_0000,
            1 <= skip@.len() <= 16,
            !(rtype == 2 && skip@.len() >= 2),
            0 <= cap <= 8192,
            pass <= 8,
            pass > 0 ==> sets@.len() * cw >= part_read,
            pass == 0 ==> sets@.len() == 0,
            forall|k: int| 0 <= k < sets@.len() ==> (#[trigger] sets@[k])@.len() == skip@.len(),
            forall|k: int, j: int| 0 <= k < sets@.len() && 0 <= j < skip@.len() && !skip@[j]
                ==> #[trigger] sets@[k]@[j] < r.classdata@.len(),
            vectors_ok(out@, 0, books@, rtype, skip@, cap as int),
            p == page_bits(f0),
            tend == bits_in_page(f0),
            exact == (0 <= f0.valid_bits),
            init == (true, 0int, old(out)@, Seq::<Seq<int>>::empty()),
            fin == passes_read(books@, *r, rtype, skip@, cap as int, p, tend, 8, init),
            f0 == *old(f),
            fin.0 == channel_residue_read(books@, *r, rtype, skip@, cap as int, page_bits(*old(f)), bits_in_page(*old(f)),
                old(out)@).0,
            exact && fin.0 ==> {
                let e = passes_read(books@, *r, rtype, skip@, cap as int, p, tend, pass as int, init);
                e.0 && reading_at(*f, p, e.1, tend) && out@ == e.2 && sets_agree(sets@, e.3)
            },
        decreases 8 - pass,
    {
        let ghost ep = passes_read(books@, *r, rtype, skip@, cap as int, p, tend, pass as int, init);
        proof {
            if exact && fin.0 {
                lemma_passes_ok(books@, *r, rtype, skip@, cap as int, p, tend, pass + 1, 8, init);
            }
        }
        let mut pcount: i32 = 0;
        let mut class_set: usize = 0;
        while pcount < part_read
            invariant
                f.wf(),
                f.same_setup(&*old(f)),
                all_skipped ==> *f == f0 && out@ == old(out)@,
                all_skipped == forall|j: int| 0 <= j < skip@.len() ==> skip@[j],
                1 <= books@.len() <= 256,
                forall|i: int| 0 <= i < books@.len() ==> codebook_setup_ok(#[trigger] books@[i]),
                residue_ok(*r, rtype, books@),
                cb == books@[r.classbook as int],
                1 <= cw < 0x1_0000,
                cw == cb.dimensions,
                ps == r.part_size,
                begin == r.begin,
                part_read == (r.end - r.begin) / (r.part_size as int),
                0 <= part_read <= 0x100_0000,
                1 <= skip@.len() <= 16,
                !(rtype == 2 && skip@.len() >= 2),
                0 <= cap <= 8192,
                pass < 8,
                0 <= pcount <= part_read,
                pcount <= class_set * cw,
                pcount < part_read ==> pcount == class_set * cw,
                class_set <= part_read,
                pass > 0 ==> sets@.len() * cw >= part_read,
                pass == 0 ==> sets@.len() == class_set,
                forall|k: int| 0 <= k < sets@.len() ==> (#[trigger] sets@[k])@.len() == skip@.len(),
                forall|k: int, j: int| 0 <= k < sets@.len() && 0 <= j < skip@.len() && !skip@[j]
                    ==> #[trigger] sets@[k]@[j] < r.classdata@.len(),
                vectors_ok(out@, 0, books@, rtype, skip@, cap as int),
                p == page_bits(f0),
            tend == bits_in_page(f0),
            exact == (0 <= f0.valid_bits),
            init == (true, 0int, old(out)@, Seq::<Seq<int>>::empty()),
            fin == passes_read(books@, *r, rtype, skip@, cap as int, p, tend, 8, init),
            f0 == *old(f),
            fin.0 == channel_residue_read(books@, *r, rtype, skip@, cap as int, page_bits(*old(f)), bits_in_page(*old(f)),
                old(out)@).0,
                ep == passes_read(books@, *r, rtype, skip@, cap as int, p, tend, pass as int, init),
                exact && fin.0 ==> class_sets_read(books@, *r, rtype, skip@, cap as int, p, tend, pass as int,
                    part_read as int, ep).0,
                exact && fin.0 ==> {
                    let e = class_sets_read(books@, *r, rtype, skip@, cap as int, p, tend, pass as int, class_set as int, ep);
                    e.0 && reading_at(*f, p, e.1, tend) && out@ == e.2 && sets_agree(sets@, e.3)
                },
            decreases part_read - pcount,
        {
            proof {
                assert(class_set <= class_set * cw) by (nonlinear_arith) requires cw >= 1, class_set >= 0;
            }
            let ghost es = class_sets_read(books@, *r, rtype, skip@, cap as int, p, tend, pass as int, class_set as int, ep);
            let ghost row0: (bool, int, Seq<int>) = (es.0, es.1, Seq::empty());
            let ghost rowe = class_row_read(*cb, p, tend, skip@, skip@.len() as int, row0);
            let ghost st1: ClassReading = if pass == 0 { (rowe.0, rowe.1, es.2, es.3.push(rowe.2)) } else { es };
            proof {
                if exact && fin.0 {
                    lemma_class_sets_ok(books@, *r, rtype, skip@, cap as int, p, tend, pass as int, class_set + 1,
                        part_read as int, ep);
                    lemma_class_word_ok(books@, *r, rtype, skip@, cap as int, p, tend, pass as int, class_set as int,
                        0, cw as int, st1);
                }
            }
            if pass == 0 {
                let mut row: Vec<usize> = Vec::new();
                let mut j: usize = 0;
                while j < skip.len()
                    invariant
                        f.wf(),
                        f.same_setup(&*old(f)),
                        all_skipped ==> *f == f0 && out@ == old(out)@,
                        all_skipped == forall|j: int| 0 <= j < skip@.len() ==> skip@[j],
                        vectors_ok(out@, 0, books@, rtype, skip@, cap as int),
                        cb == books@[r.classbook as int],
                        codebook_setup_ok(*cb),
                        residue_ok(*r, rtype, books@),
                        j <= skip@.len(),
                        row@.len() == j,
                        forall|q: int| 0 <= q < j && !skip@[q] ==> #[trigger] row@[q] < r.classdata@.len(),
                        p == page_bits(f0),
            tend == bits_in_page(f0),
            exact == (0 <= f0.valid_bits),
            init == (true, 0int, old(out)@, Seq::<Seq<int>>::empty()),
            fin == passes_read(books@, *r, rtype, skip@, cap as int, p, tend, 8, init),
            f0 == *old(f),
            fin.0 == channel_residue_read(books@, *r, rtype, skip@, cap as int, page_bits(*old(f)), bits_in_page(*old(f)),
                old(out)@).0,
                        pass == 0,
                        rowe == class_row_read(*cb, p, tend, skip@, skip@.len() as int, row0),
                        exact && fin.0 ==> rowe.0 && out@ == es.2 && sets_agree(sets@, es.3),
                        exact && fin.0 ==> {
                            let e = class_row_read(*cb, p, tend, skip@, j as int, row0);
                            e.0 && reading_at(*f, p, e.1, tend) && e.2.len() == j
                                && forall|q: int| 0 <= q < j ==> row@[q] as int == #[trigger] e.2[q]
                        },
                    decreases skip@.len() - j,
                {
                    let ghost er = class_row_read(*cb, p, tend, skip@, j as int, row0);
                    proof {
                        if exact && fin.0 {
                            lemma_class_row_ok(*cb, p, tend, skip@, j + 1, skip@.len() as int, row0);
                        }
                    }
                    if !skip[j] {
                        let code = decode_at(f, cb, Ghost(p), Ghost(er.1), Ghost(tend));
                        if code == EOP {
                            proof {
                                if exact && fin.0 {
                                    assert(code_read(*cb, p, er.1, tend).0);
                                    assert(code >= 0);
                                }
                                assert(!(exact && fin.0));
                            }
                            return;
                        }
                        row.push(code as usize);
                    } else {
                        row.push(0);
                    }
                    j = j + 1;
                }
                let ghost sets_before = sets@;
                sets.push(row);
                proof {
                    if exact && fin.0 {
                        assert(sets_agree(sets@, es.3.push(rowe.2))) by {
                            assert forall|k: int, q: int| 0 <= k < sets@.len() && 0 <= q < sets@[k]@.len()
                                implies sets@[k]@[q] as int == #[trigger] es.3.push(rowe.2)[k][q] by {
                                if k < sets_before.len() {
                                    assert(sets@[k] == sets_before[k]);
                                }
                            }
                        }
                    }
                }
            }
            proof {
                if pass > 0 {
                    if class_set >= sets@.len() {
                        vstd::arithmetic::mul::lemma_mul_inequality(sets@.len() as int, class_set as int, cw as int);
                    }
                }
            }
            let mut i: i32 = 0;
            while i < cw && pcount < part_read
                invariant
                    f.wf(),
                    f.same_setup(&*old(f)),
                    all_skipped ==> *f == f0 && out@ == old(out)@,
                    all_skipped == forall|j: int| 0 <= j < skip@.len() ==> skip@[j],
                    1 <= books@.len() <= 256,
                    forall|i: int| 0 <= i < books@.len() ==> codebook_setup_ok(#[trigger] books@[i]),
                    residue_ok(*r, rtype, books@),
                    1 <= cw < 0x1_0000,
                    cw == books@[r.classbook as int].dimensions,
                    ps == r.part_size,
                    begin == r.begin,
                    part_read == (r.end - r.begin) / (r.part_size as int),
                    0 <= part_read <= 0x100_0000,
                    1 <= skip@.len() <= 16,
                    !(rtype == 2 && skip@.len() >= 2),
                    0 <= cap <= 8192,
                    pass < 8,
                    0 <= i <= cw,
                    pcount == class_set * cw + i,
                    pcount <= part_read,
                    class_set < sets@.len(),
                    forall|k: int| 0 <= k < sets@.len() ==> (#[trigger] sets@[k])@.len() == skip@.len(),
                    forall|k: int, j: int| 0 <= k < sets@.len() && 0 <= j < skip@.len() && !skip@[j]
                        ==> #[trigger] sets@[k]@[j] < r.classdata@.len(),
                    vectors_ok(out@, 0, books@, rtype, skip@, cap as int),
                    p == page_bits(f0),
            tend == bits_in_page(f0),
            exact == (0 <= f0.valid_bits),
            init == (true, 0int, old(out)@, Seq::<Seq<int>>::empty()),
            fin == passes_read(books@, *r, rtype, skip@, cap as int, p, tend, 8, init),
            f0 == *old(f),
            fin.0 == channel_residue_read(books@, *r, rtype, skip@, cap as int, page_bits(*old(f)), bits_in_page(*old(f)),
                old(out)@).0,
                    exact && fin.0 ==> class_word_read(books@, *r, rtype, skip@, cap as int, p, tend, pass as int,
                        class_set as int, cw as int, st1).0,
                    exact && fin.0 ==> {
                        let e = class_word_read(books@, *r, rtype, skip@, cap as int, p, tend, pass as int,
                            class_set as int, i as int, st1);
                        e.0 && reading_at(*f, p, e.1, tend) && out@ == e.2 && sets_agree(sets@, e.3)
                    },
                decreases cw - i,
            {
                proof { lemma_part_bound(pcount as int, (r.end - r.begin) as int, ps as int); }
                let ghost ew = class_word_read(books@, *r, rtype, skip@, cap as int, p, tend, pass as int,
                    class_set as int, i as int, st1);
                proof {
                    if exact && fin.0 {
                        lemma_class_word_ok(books@, *r, rtype, skip@, cap as int, p, tend, pass as int,
                            class_set as int, i + 1, cw as int, st1);
                    }
                }
                let offset = begin + pcount * ps;
                let mut j: usize = 0;
                while j < skip.len()
                    invariant
                        f.wf(),
                        f.same_setup(&*old(f)),
                        all_skipped ==> *f == f0 && out@ == old(out)@,
                        all_skipped == forall|j: int| 0 <= j < skip@.len() ==> skip@[j],
                        1 <= books@.len() <= 256,
                        forall|i: int| 0 <= i < books@.len() ==> codebook_setup_ok(#[trigger] books@[i]),
                        residue_ok(*r, rtype, books@),
                        0 <= i < cw,
                        cw == books@[r.classbook as int].dimensions,
                        ps == r.part_size,
                        1 <= ps <= 0x100_0000,
                        0 <= offset < 0x100_0000,
                        1 <= skip@.len() <= 16,
                        !(rtype == 2 && skip@.len() >= 2),
                        0 <= cap <= 8192,
                        pass < 8,
                        j <= skip@.len(),
                        class_set < sets@.len(),
                        forall|k: int| 0 <= k < sets@.len() ==> (#[trigger] sets@[k])@.len() == skip@.len(),
                        forall|k: int, j: int| 0 <= k < sets@.len() && 0 <= j < skip@.len() && !skip@[j]
                            ==> #[trigger] sets@[k]@[j] < r.classdata@.len(),
                        vectors_ok(out@, 0, books@, rtype, skip@, cap as int),
                        p == page_bits(f0),
            tend == bits_in_page(f0),
            exact == (0 <= f0.valid_bits),
            init == (true, 0int, old(out)@, Seq::<Seq<int>>::empty()),
            fin == passes_read(books@, *r, rtype, skip@, cap as int, p, tend, 8, init),
            f0 == *old(f),
            fin.0 == channel_residue_read(books@, *r, rtype, skip@, cap as int, page_bits(*old(f)), bits_in_page(*old(f)),
                old(out)@).0,
                        pcount == class_set * cw + i,
                        offset == r.begin + pcount * r.part_size,
                        ew == class_word_read(books@, *r, rtype, skip@, cap as int, p, tend, pass as int,
                            class_set as int, i as int, st1),
                        exact && fin.0 ==> channels_read(books@, *r, rtype, skip@, cap as int, p, tend, pass as int,
                            class_set as int, i as int, pcount as int, skip@.len() as int, ew).0,
                        exact && fin.0 ==> {
                            let e = channels_read(books@, *r, rtype, skip@, cap as int, p, tend, pass as int,
                                class_set as int, i as int, pcount as int, j as int, ew);
                            e.0 && reading_at(*f, p, e.1, tend) && out@ == e.2 && sets_agree(sets@, e.3)
                        },
                    decreases skip@.len() - j,
                {
                    let ghost ec = channels_read(books@, *r, rtype, skip@, cap as int, p, tend, pass as int,
                        class_set as int, i as int, pcount as int, j as int, ew);
                    proof {
                        if exact && fin.0 {
                            lemma_channels_ok(books@, *r, rtype, skip@, cap as int, p, tend, pass as int,
                                class_set as int, i as int, pcount as int, j + 1, skip@.len() as int, ew);
                        }
                    }
                    if !skip[j] {
                        let q = sets[class_set][j];
                        proof { lemma_class_bound(*r, rtype, books@, q as int, i as int); }
                        let cls = r.classdata[q][i as usize] as usize;
                        let bk = r.residue_books[cls][pass];
                        if bk >= 0 {
                            if !decode_partition(f, books, bk as usize, rtype, j as u32, offset, ps, cap, skip, out,
                                Ghost(p), Ghost(ec.1), Ghost(tend)) {
                                proof {
                                    assert(!(exact && fin.0));
                                }
                                return;
                            }
                        }
                    }
                    j = j + 1;
                }
                i = i + 1;
                pcount = pcount + 1;
            }
            proof {
                assert((class_set + 1) * cw == class_set * cw + cw) by (nonlinear_arith);
                if exact && fin.0 && i < cw {
                    lemma_class_word_tail(books@, *r, rtype, skip@, cap as int, p, tend, pass as int, class_set as int,
                        i as int, cw as int, st1);
                }
            }
            class_set = class_set + 1;
        }
        proof {
            if exact && fin.0 {
                lemma_class_sets_tail(books@, *r, rtype, skip@, cap as int, p, tend, pass as int, class_set as int,
                    part_read as int, ep);
            }
        }
        pass = pass + 1;
    }
}

/// Decodes the residue of the current packet with residue configuration
/// `rn`, over the channels of one submap: `skip@[j]` when channel `j` is
/// silent in this packet and is not decoded. `n` is the number of values of
/// each channel's residue (half the block), `cap` the length of the
/// channel buffers the vectors are applied to. Gives the vectors read, in
/// the order they were read, until the end of the packet or a bad code:
/// each can be applied in bounds, carries the residue's type, and is
/// interleaved over the channels exactly for a residue of type 2 over two
/// or more channels. When no channel is decoded, nothing is read.
pub fn decode_residue(f: &mut Vorbis, rn: usize, skip: &Vec<bool>, n: i32, cap: i32) -> (r: Vec<ResidueVector>)
    requires
        old(f).wf(),
        setup_ok(*old(f)),
        rn < old(f).residue_count,
        1 <= skip@.len() <= 16,
        0 <= n <= cap <= 8192,
    ensures
        final(f).wf(),
        final(f).same_setup(&*old(f)),
        vectors_ok(r@, 0, old(f).codebooks@, old(f).residue_types@[rn as int], skip@, cap as int),
        (forall|j: int| 0 <= j < skip@.len() ==> skip@[j]) ==> *final(f) == *old(f) && r@.len() == 0,
        0 <= old(f).valid_bits && !(old(f).residue_types@[rn as int] == 2 && skip@.len() >= 2) ==> {
            let e = channel_residue_read(old(f).codebooks@, old(f).residue_config@[rn as int],
                old(f).residue_types@[rn as int], skip@, cap as int, page_bits(*old(f)), bits_in_page(*old(f)),
                Seq::empty());
            e.0 ==> r@ == e.2
        },
        0 <= old(f).valid_bits && old(f).residue_types@[rn as int] == 2 && skip@.len() >= 2 ==> {
            let e = interleaved_residue_read(old(f).codebooks@, old(f).residue_config@[rn as int], skip@, n as int,
                cap as int, page_bits(*old(f)), bits_in_page(*old(f)), Seq::empty());
            e.0 ==> r@ == e.2
        },
{
    let ghost f0 = *f;
    let mut books: Vec<Codebook> = Vec::new();
    std::mem::swap(&mut books, &mut f.codebooks);
    let mut residues: Vec<Residue> = Vec::new();
    std::mem::swap(&mut residues, &mut f.residue_config);
    let ghost fs = *f;
    let rtype = f.residue_types[rn];
    proof {
        assert(residue_ok(residues@[rn as int], rtype, books@));
    }
    let mut out: Vec<ResidueVector> = Vec::new();
    if rtype == 2 && skip.len() >= 2 {
        decode_interleaved_residue(f, &books, &residues[rn], skip, n, cap, &mut out);
    } else {
        decode_channel_residue(f, &books, &residues[rn], rtype, skip, cap, &mut out);
    }
    std::mem::swap(&mut books, &mut f.codebooks);
    std::mem::swap(&mut residues, &mut f.residue_config);
    proof {
        if forall|j: int| 0 <= j < skip@.len() ==> skip@[j] {
            assert(*f == f0);
        }
    }
    out
}

} // verus!
