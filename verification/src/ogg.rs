use vstd::prelude::*;
use vstd::arithmetic::power2::pow2;
use vstd::math::min;
use crate::types::{ProbedPage, VorbisError};
use crate::vorbis::{Vorbis, byte_at, le32_at, advance, error, get8, getn, capture_pattern, capture_cut, EOP, INVALID_BITS, PAGEFLAG_CONTINUED_PACKET};

verus! {

/// The sum of the first `n` segment lengths.
pub open spec fn seg_sum(s: Seq<u8>, n: int) -> int
    decreases n,
{
    if n <= 0 { 0 } else { seg_sum(s, n - 1) + s[n - 1] }
}

/// The last of the first `n` segments shorter than 255 (the last segment of
/// a packet that ends on the page), or -1.
pub open spec fn last_short(s: Seq<u8>, n: int) -> int
    decreases n,
{
    if n <= 0 {
        -1
    } else if s[n - 1] < 255 {
        n - 1
    } else {
        last_short(s, n - 1)
    }
}

pub(crate) proof fn lemma_last_short_bounds(s: Seq<u8>, n: int)
    ensures
        -1 <= last_short(s, n) < (if n > 0 { n } else { 0 }),
        last_short(s, n) >= 0 ==> s[last_short(s, n)] < 255,
    decreases n,
{
    if n > 0 {
        lemma_last_short_bounds(s, n - 1);
    }
}

proof fn lemma_seg_sum_bound(s: Seq<u8>, n: int)
    requires
        0 <= n,
    ensures
        0 <= seg_sum(s, n) <= 255 * n,
    decreases n,
{
    if n > 0 {
        lemma_seg_sum_bound(s, n - 1);
    }
}

/// How many bytes of the current packet this page holds from segment `k`
/// on: none past the last segment, and none after a segment shorter than
/// 255, which ends the packet.
pub open spec fn segment_run(segs: Seq<u8>, k: int, count: int) -> int
    decreases count - k,
{
    if k < 0 || k >= count {
        0
    } else if segs[k] < 255 {
        segs[k] as int
    } else {
        255 + segment_run(segs, k + 1, count)
    }
}

/// How many bytes of the current packet are left to read in this page.
pub open spec fn page_bytes_left(f: Vorbis) -> int {
    f.bytes_in_seg + (if f.last_seg { 0 } else { segment_run(f.segments@, f.next_seg as int, f.segment_count as int) })
}

/// The `m` bytes of `d` from `p` on as one number, first byte lowest (0
/// past the end).
pub open spec fn bytes_value(d: Seq<u8>, p: int, m: nat) -> nat
    decreases m,
{
    if m == 0 { 0 } else { byte_at(d, p) as nat + 256 * bytes_value(d, p + 1, (m - 1) as nat) }
}

/// How many bits of the current packet can be read without leaving its
/// page: the pending ones and those of the bytes left in the page.
pub open spec fn bits_in_page(f: Vorbis) -> int {
    f.valid_bits + 8 * page_bytes_left(f)
}

/// Those bits as one number, the next bit lowest.
pub open spec fn page_bits(f: Vorbis) -> int {
    f.acc as int % pow2(f.valid_bits as nat) as int
        + pow2(f.valid_bits as nat) as int * bytes_value(f.data@, f.pos as int, page_bytes_left(f) as nat) as int
}

/// Bytes past the end of the data read as 0.
proof fn lemma_bytes_past_end(d: Seq<u8>, p: int, m: nat)
    requires
        p >= d.len(),
    ensures
        bytes_value(d, p, m) == 0,
    decreases m,
{
    if m > 0 {
        lemma_bytes_past_end(d, p + 1, (m - 1) as nat);
    }
}

/// Reading one byte at `p` leaves the value of the bytes after it.
proof fn lemma_bytes_step(d: Seq<u8>, p: int, m: nat)
    requires
        m >= 1,
        0 <= p <= d.len(),
    ensures
        bytes_value(d, p, m) == byte_at(d, p) as nat + 256 * bytes_value(d, advance(p, 1, d.len() as int), (m - 1) as nat),
{
    if p + 1 > d.len() {
        lemma_bytes_past_end(d, p + 1, (m - 1) as nat);
        lemma_bytes_past_end(d, p, (m - 1) as nat);
    }
}

/// Taking the low `n` of `v` pending bits `a` ahead of the bits `b`: they
/// are the low `n` bits of the whole, and the rest follow.
proof fn lemma_split_bits(a: int, v: nat, n: nat, b: int)
    requires
        n <= v,
        0 <= a,
        0 <= b,
    ensures
        (a % (pow2(v) as int) + pow2(v) as int * b) % (pow2(n) as int) == a % (pow2(n) as int),
        (a % (pow2(v) as int) + pow2(v) as int * b) / (pow2(n) as int)
            == (a / (pow2(n) as int)) % (pow2((v - n) as nat) as int) + pow2((v - n) as nat) as int * b,
{
    let pn = pow2(n) as int;
    let pr = pow2((v - n) as nat) as int;
    vstd::arithmetic::power2::lemma_pow2_adds(n, (v - n) as nat);
    vstd::arithmetic::power2::lemma_pow2_pos(n);
    vstd::arithmetic::power2::lemma_pow2_pos((v - n) as nat);
    assert(pow2(v) as int == pn * pr);
    vstd::arithmetic::div_mod::lemma_mod_breakdown(a, pn, pr);
    let q = (a / pn) % pr + pr * b;
    vstd::arithmetic::div_mod::lemma_mod_bound(a, pn);
    assert(a % (pow2(v) as int) + pow2(v) as int * b == q * pn + a % pn) by (nonlinear_arith)
        requires a % (pn * pr) == pn * ((a / pn) % pr) + a % pn, pow2(v) as int == pn * pr, q == (a / pn) % pr + pr * b;
    vstd::arithmetic::div_mod::lemma_fundamental_div_mod_converse(a % (pow2(v) as int) + pow2(v) as int * b, pn, q, a % pn);
}

/// The bits that reading one more byte `z` into `vb` pending bits `acc`
/// gives, followed by the bytes after it, are the bits before.
proof fn lemma_append_value(acc: int, vb: nat, z: int, bv: int, bv1: int)
    requires
        0 <= acc < pow2(vb),
        0 <= z < 256,
        bv == z + 256 * bv1,
        acc + z * pow2(vb) < pow2(vb + 8),
    ensures
        (acc + z * pow2(vb)) % (pow2(vb + 8) as int) + pow2(vb + 8) as int * bv1
            == acc % (pow2(vb) as int) + pow2(vb) as int * bv,
{
    vstd::arithmetic::power2::lemma_pow2_adds(vb, 8);
    vstd::arithmetic::power2::lemma2_to64();
    vstd::arithmetic::power2::lemma_pow2_pos(vb);
    vstd::arithmetic::div_mod::lemma_small_mod(acc as nat, pow2(vb));
    assert(0 <= z * pow2(vb)) by (nonlinear_arith) requires 0 <= z, pow2(vb) > 0;
    vstd::arithmetic::div_mod::lemma_small_mod((acc + z * pow2(vb)) as nat, pow2(vb + 8));
    assert(pow2(vb + 8) as int * bv1 == pow2(vb) as int * (256 * bv1)) by (nonlinear_arith)
        requires pow2(vb + 8) == pow2(vb) * pow2(8), pow2(8) == 256;
    assert(pow2(vb) as int * bv == z * pow2(vb) + pow2(vb) as int * (256 * bv1)) by (nonlinear_arith)
        requires bv == z + 256 * bv1;
}

proof fn lemma_segment_run_nonneg(segs: Seq<u8>, k: int, count: int)
    ensures
        segment_run(segs, k, count) >= 0,
    decreases count - k,
{
    if 0 <= k < count && segs[k] == 255 {
        lemma_segment_run_nonneg(segs, k + 1, count);
    }
}

proof fn lemma_page_bytes_left_nonneg(f: Vorbis)
    ensures
        page_bytes_left(f) >= 0,
{
    lemma_segment_run_nonneg(f.segments@, f.next_seg as int, f.segment_count as int);
}

pub(crate) proof fn lemma_page_bits_nonneg(f: Vorbis)
    ensures
        page_bits(f) >= 0,
{
    vstd::arithmetic::power2::lemma_pow2_pos(f.valid_bits as nat);
    let b = bytes_value(f.data@, f.pos as int, page_bytes_left(f) as nat) as int;
    let w = pow2(f.valid_bits as nat) as int;
    assert(w * b >= 0) by (nonlinear_arith) requires w > 0, b >= 0;
    vstd::arithmetic::div_mod::lemma_mod_bound(f.acc as int, w);
}

/// The pending bits are the first of the packet's bits in the page.
pub(crate) proof fn lemma_pending_prefix(f: Vorbis, n: int)
    requires
        0 <= n <= f.valid_bits,
    ensures
        page_bits(f) % pow2(n as nat) as int == f.acc as int % pow2(n as nat) as int,
{
    lemma_page_bytes_left_nonneg(f);
    lemma_split_bits(f.acc as int, f.valid_bits as nat, n as nat,
        bytes_value(f.data@, f.pos as int, page_bytes_left(f) as nat) as int);
}

/// The `w` bits at bit `k` of the bits `p` (first bit lowest), as a number.
pub open spec fn bit_field(p: int, k: nat, w: nat) -> int {
    (p / pow2(k) as int) % pow2(w) as int
}

/// The bits after the next `n`, and then after `m` more, are those after
/// `n + m`.
pub proof fn lemma_bits_after(p: int, n: nat, m: nat)
    requires
        p >= 0,
    ensures
        p / (pow2(n) as int) / (pow2(m) as int) == p / (pow2(n + m) as int),
        p / (pow2(n) as int) >= 0,
{
    vstd::arithmetic::power2::lemma_pow2_pos(n);
    vstd::arithmetic::power2::lemma_pow2_pos(m);
    vstd::arithmetic::power2::lemma_pow2_adds(n, m);
    vstd::arithmetic::div_mod::lemma_div_denominator(p, pow2(n) as int, pow2(m) as int);
    vstd::arithmetic::div_mod::lemma_div_pos_is_pos(p, pow2(n) as int);
}

/// A field of `a + b` bits is its low `a` bits, then the `b` bits after.
pub proof fn lemma_field_split(p: int, k: nat, a: nat, b: nat)
    requires
        p >= 0,
    ensures
        bit_field(p, k, a + b) == bit_field(p, k, a) + pow2(a) as int * bit_field(p, k + a, b),
{
    lemma_bits_after(p, k, a);
    vstd::arithmetic::power2::lemma_pow2_pos(a);
    vstd::arithmetic::power2::lemma_pow2_pos(b);
    vstd::arithmetic::power2::lemma_pow2_adds(a, b);
    vstd::arithmetic::div_mod::lemma_mod_breakdown(p / pow2(k) as int, pow2(a) as int, pow2(b) as int);
}

/// `f` stands at bit `pos` of the bits `p` of its packet's page, of which
/// it can read up to bit `t`.
pub open spec fn reading_at(f: Vorbis, p: int, pos: int, t: int) -> bool {
    &&& 0 <= f.valid_bits
    &&& 0 <= p
    &&& 0 <= pos
    &&& page_bits(f) == p / pow2(pos as nat) as int
    &&& bits_in_page(f) == t - pos
}

/// A measure that every byte or segment read from a packet decreases.
pub open spec fn progress(f: Vorbis) -> int {
    (f.data@.len() - f.pos) * 0x400_0000
        + (if f.last_seg { 0int } else { 0x200_0000int })
        + (if f.next_seg == -1 { 0int } else { 256 - f.next_seg }) * 256
        + f.bytes_in_seg
}

/// The page header fields a successful page read records.
pub open spec fn page_read(f0: Vorbis, f: Vorbis) -> bool {
    let d = f0.data@;
    let p = f0.pos as int;
    let count = byte_at(d, p + 22) as int;
    let loc0 = le32_at(d, p + 2);
    let loc1 = le32_at(d, p + 6);
    let known = if loc0 != 0xffff_ffffu32 || loc1 != 0xffff_ffffu32 { last_short(f.segments@, count) } else { -1 };
    &&& f.page_flag == byte_at(d, p + 1)
    &&& f.last_page == le32_at(d, p + 14) as i32
    &&& f.segment_count == count
    &&& f.segments@.subrange(0, count) == d.subrange(p + 23, p + 23 + count)
    &&& f.segments@.subrange(count, 255) == f0.segments@.subrange(count, 255)
    &&& f.pos == p + 23 + count
    &&& f.next_seg == 0
    &&& f.end_seg_with_known_loc == (if known >= 0 { known } else { -2 })
    &&& f.known_loc_for_packet == (if known >= 0 { loc0 } else { f0.known_loc_for_packet })
    &&& f.p_first == (if f0.first_decode {
            ProbedPage {
                page_start: f0.first_audio_page_offset,
                page_end: (f0.first_audio_page_offset + 27 + count + seg_sum(f.segments@, count)) as u32,
                last_decoded_sample: loc0,
            }
        } else {
            f0.p_first
        })
    &&& f.eof == f0.eof
    &&& f.error == f0.error
}

/// The fields a page read leaves alone.
pub open spec fn page_frame(f0: Vorbis, f: Vorbis) -> bool {
    &&& f.same_setup(&f0)
    &&& f.first_decode == f0.first_decode
    &&& f.last_seg == f0.last_seg
    &&& f.last_seg_which == f0.last_seg_which
    &&& f.bytes_in_seg == f0.bytes_in_seg
    &&& f.acc == f0.acc
    &&& f.valid_bits == f0.valid_bits
    &&& f.packet_bytes == f0.packet_bytes
    &&& f.first_audio_page_offset == f0.first_audio_page_offset
    &&& f.previous_length == f0.previous_length
    &&& f.page_crc_tests == f0.page_crc_tests
    &&& f.scan == f0.scan
    &&& f.current_loc == f0.current_loc
    &&& f.current_loc_valid == f0.current_loc_valid
}

/// The byte at `i` of the stream, or 0 past its end.
fn peek8(f: &Vorbis, i: usize) -> (r: u8)
    ensures
        r == byte_at(f.data@, i as int),
{
    if i < f.data.len() { f.data[i] } else { 0 }
}

/// The little-endian 32-bit value at `i` of the stream (0 past its end).
fn peek32(f: &Vorbis, i: usize) -> (r: u32)
    requires
        i < 0x8000_0000,
    ensures
        r == le32_at(f.data@, i as int),
{
    let b0 = peek8(f, i);
    let b1 = peek8(f, i + 1);
    let b2 = peek8(f, i + 2);
    let b3 = peek8(f, i + 3);
    let x: u32 = (b0 as u32) | ((b1 as u32) << 8) | ((b2 as u32) << 16) | ((b3 as u32) << 24);
    assert(x == (b0 as int + b1 as int * 256 + b2 as int * 65536 + b3 as int * 16777216) as u32) by (bit_vector)
        requires x == (b0 as u32) | ((b1 as u32) << 8) | ((b2 as u32) << 16) | ((b3 as u32) << 24);
    x
}

/// The last of the first `count` segments shorter than 255, or -1.
fn find_last_short(segments: &Vec<u8>, count: u8) -> (r: i32)
    requires
        segments@.len() == 255,
    ensures
        r == last_short(segments@, count as int),
        -1 <= r < count,
{
    proof { lemma_last_short_bounds(segments@, count as int); }
    let mut i: i32 = count as i32 - 1;
    while i >= 0
        invariant
            -1 <= i < count,
            count <= 255,
            segments@.len() == 255,
            last_short(segments@, count as int) == last_short(segments@, i as int + 1),
        decreases i + 1,
    {
        if segments[i as usize] < 255 {
            return i;
        }
        i = i - 1;
    }
    i
}

/// The sum of the first `count` segment lengths.
fn segments_total(segments: &Vec<u8>, count: u8) -> (r: i32)
    requires
        segments@.len() == 255,
    ensures
        r == seg_sum(segments@, count as int),
        0 <= r <= 255 * 255,
{
    let mut len: i32 = 0;
    let mut i: usize = 0;
    while i < count as usize
        invariant
            i <= count,
            count <= 255,
            segments@.len() == 255,
            len == seg_sum(segments@, i as int),
            0 <= len <= 255 * i,
        decreases count - i,
    {
        len = len + segments[i] as i32;
        i = i + 1;
    }
    len
}

/// Copies the `count` segment lengths into the segment table.
fn set_segments(f: &mut Vorbis, segs: &Vec<u8>, count: u8)
    requires
        old(f).wf(),
        segs@.len() == count,
    ensures
        final(f).wf(),
        *final(f) == (Vorbis { segments: final(f).segments, ..*old(f) }),
        final(f).segments@.subrange(0, count as int) == segs@,
        final(f).segments@.subrange(count as int, 255) == old(f).segments@.subrange(count as int, 255),
{
    let mut segments: Vec<u8> = Vec::new();
    std::mem::swap(&mut segments, &mut f.segments);
    let ghost seg0 = segments@;
    let mut i: usize = 0;
    while i < count as usize
        invariant
            i <= count,
            segs@.len() == count,
            segments@.len() == 255,
            seg0.len() == 255,
            forall|j: int| 0 <= j < i ==> segments@[j] == segs@[j],
            forall|j: int| i <= j < 255 ==> segments@[j] == seg0[j],
        decreases count - i,
    {
        segments.set(i, segs[i]);
        i = i + 1;
    }
    f.segments = segments;
    assert(f.segments@.subrange(0, count as int) =~= segs@);
    assert(f.segments@.subrange(count as int, 255) =~= seg0.subrange(count as int, 255));
}

/// Reads the rest of a page header (after "OggS"): the flags, the granule
/// position, the page number and the segment table.
#[verifier::rlimit(30)]
pub fn start_page_no_capturepattern(f: &mut Vorbis) -> (r: bool)
    requires
        old(f).wf(),
    ensures
        final(f).wf(),
        page_frame(*old(f), *final(f)),
        final(f).pos >= old(f).pos,
        old(f).pos < old(f).data@.len() ==> final(f).pos > old(f).pos,
        byte_at(old(f).data@, old(f).pos as int) != 0 ==> !r && final(f).error == VorbisError::InvalidStreamStructureVersion
            && final(f).next_seg == old(f).next_seg,
        byte_at(old(f).data@, old(f).pos as int) == 0
            && old(f).pos + 23 + byte_at(old(f).data@, old(f).pos + 22) > old(f).data@.len()
            ==> !r && final(f).error == VorbisError::UnexpectedEof && final(f).eof && final(f).next_seg == old(f).next_seg,
        byte_at(old(f).data@, old(f).pos as int) == 0
            && old(f).pos + 23 + byte_at(old(f).data@, old(f).pos + 22) <= old(f).data@.len()
            ==> r && page_read(*old(f), *final(f)),
{
    let ghost f0 = *f;
    let p = f.pos;
    if 0 != peek8(f, p) {
        get8(f);
        return error(f, VorbisError::InvalidStreamStructureVersion);
    }
    let flag = peek8(f, p + 1);
    let loc0 = peek32(f, p + 2);
    let loc1 = peek32(f, p + 6);
    let n = peek32(f, p + 14);
    let count = peek8(f, p + 22);
    f.page_flag = flag;
    f.last_page = n as i32;
    f.segment_count = count as i32;
    if f.data.len() - p < 23 {
        f.pos = f.data.len();
        f.eof = true;
        return error(f, VorbisError::UnexpectedEof);
    }
    f.pos = p + 23;
    let segs = getn(f, count as usize);
    let segs = match segs {
        None => {
            return error(f, VorbisError::UnexpectedEof);
        }
        Some(segs) => segs,
    };
    set_segments(f, &segs, count);
    f.end_seg_with_known_loc = -2;
    if loc0 != 0xffff_ffff || loc1 != 0xffff_ffff {
        let i = find_last_short(&f.segments, count);
        if i >= 0 {
            f.end_seg_with_known_loc = i;
            f.known_loc_for_packet = loc0;
        }
    }
    if f.first_decode {
        let total = segments_total(&f.segments, count);
        let len = total + 27 + count as i32;
        f.p_first = ProbedPage {
            page_start: f.first_audio_page_offset,
            page_end: f.first_audio_page_offset + len as u32,
            last_decoded_sample: loc0,
        };
    }
    f.next_seg = 0;
    true
}

/// The data ends inside what would be a page header at `p`: inside its
/// capture pattern, or after a capture pattern and a version byte of 0
/// but before the end of its segment table.
pub open spec fn header_cut(d: Seq<u8>, p: int) -> bool {
    ||| capture_cut(d, p)
    ||| (byte_at(d, p) == 0x4f && byte_at(d, p + 1) == 0x67 && byte_at(d, p + 2) == 0x67 && byte_at(d, p + 3) == 0x53
        && byte_at(d, p + 4) == 0 && p + 27 + byte_at(d, p + 26) > d.len())
}

/// Reads a page header: "OggS", then the rest.
pub fn start_page(f: &mut Vorbis) -> (r: bool)
    requires
        old(f).wf(),
    ensures
        final(f).wf(),
        page_frame(*old(f), *final(f)),
        final(f).pos >= old(f).pos,
        old(f).pos < old(f).data@.len() ==> final(f).pos > old(f).pos,
        !r ==> final(f).next_seg == old(f).next_seg,
        !r ==> final(f).error != VorbisError::NoError,
        r ==> final(f).next_seg == 0,
        r ==> page_read(Vorbis { pos: (old(f).pos + 4) as usize, ..*old(f) }, *final(f)),
        !(byte_at(old(f).data@, old(f).pos as int) == 0x4f && byte_at(old(f).data@, old(f).pos + 1) == 0x67
            && byte_at(old(f).data@, old(f).pos + 2) == 0x67 && byte_at(old(f).data@, old(f).pos + 3) == 0x53)
            ==> !r && final(f).error == VorbisError::MissingCapturePattern,
        r <==> (byte_at(old(f).data@, old(f).pos as int) == 0x4f && byte_at(old(f).data@, old(f).pos + 1) == 0x67
            && byte_at(old(f).data@, old(f).pos + 2) == 0x67 && byte_at(old(f).data@, old(f).pos + 3) == 0x53
            && byte_at(old(f).data@, old(f).pos + 4) == 0
            && old(f).pos + 27 + byte_at(old(f).data@, old(f).pos + 26) <= old(f).data@.len()),
        header_cut(old(f).data@, old(f).pos as int) ==> final(f).eof,
{
    let ghost f0 = *f;
    if !capture_pattern(f) {
        proof {
            if byte_at(f0.data@, f0.pos as int) == 0x4f && byte_at(f0.data@, f0.pos + 1) == 0x67
                && byte_at(f0.data@, f0.pos + 2) == 0x67 && byte_at(f0.data@, f0.pos + 3) == 0x53 {
                assert(f0.pos + 3 < f0.data@.len());
            }
        }
        return error(f, VorbisError::MissingCapturePattern);
    }
    let r = start_page_no_capturepattern(f);
    r
}

/// Starts a packet, reading a page header first when the last page is
/// used up; a packet may not begin with the continued-packet flag.
pub fn start_packet(f: &mut Vorbis) -> (r: bool)
    requires
        old(f).wf(),
    ensures
        final(f).wf(),
        final(f).same_setup(&*old(f)),
        progress(*final(f)) <= progress(*old(f)) + 0x200_0000,
        old(f).next_seg != -1 ==> r && *final(f) == (Vorbis { last_seg: false, valid_bits: 0, packet_bytes: 0, bytes_in_seg: 0, ..*old(f) }),
        r ==> !final(f).last_seg && final(f).valid_bits == 0 && final(f).packet_bytes == 0 && final(f).bytes_in_seg == 0
            && final(f).next_seg != -1,
        !r ==> final(f).error != VorbisError::NoError,
        final(f).current_loc == old(f).current_loc && final(f).current_loc_valid == old(f).current_loc_valid,
{
    if f.next_seg == -1 {
        if !start_page(f) {
            return false;
        }
        if (f.page_flag & PAGEFLAG_CONTINUED_PACKET) != 0 {
            return error(f, VorbisError::ContinuedPacketFlagInvalid);
        }
    }
    f.last_seg = false;
    f.valid_bits = 0;
    f.packet_bytes = 0;
    f.bytes_in_seg = 0;
    true
}

/// Starts the next packet, where the end of the stream at a page boundary
/// is no error.
pub fn maybe_start_packet(f: &mut Vorbis) -> (r: bool)
    requires
        old(f).wf(),
    ensures
        final(f).wf(),
        final(f).same_setup(&*old(f)),
        old(f).next_seg != -1 ==> r && *final(f) == (Vorbis { last_seg: false, valid_bits: 0, packet_bytes: 0, bytes_in_seg: 0, ..*old(f) }),
        old(f).next_seg == -1 && old(f).pos >= old(f).data@.len() ==> !r && final(f).eof,
        progress(*final(f)) <= progress(*old(f)) + 0x200_0000,
        r ==> !final(f).last_seg && final(f).valid_bits == 0 && final(f).packet_bytes == 0 && final(f).bytes_in_seg == 0
            && final(f).next_seg != -1,
        final(f).current_loc == old(f).current_loc && final(f).current_loc_valid == old(f).current_loc_valid,
{
    if f.next_seg == -1 {
        let x = get8(f);
        if f.eof {
            return false;
        }
        if 0x4f != x { return error(f, VorbisError::MissingCapturePattern); }
        if 0x67 != get8(f) { return error(f, VorbisError::MissingCapturePattern); }
        if 0x67 != get8(f) { return error(f, VorbisError::MissingCapturePattern); }
        if 0x53 != get8(f) { return error(f, VorbisError::MissingCapturePattern); }
        if !start_page_no_capturepattern(f) {
            return false;
        }
        if (f.page_flag & PAGEFLAG_CONTINUED_PACKET) != 0 {
            f.last_seg = false;
            f.bytes_in_seg = 0;
            return error(f, VorbisError::ContinuedPacketFlagInvalid);
        }
    }
    start_packet(f)
}

/// Moves to the next segment of the current packet, reading the next page
/// header when the page is used up; returns the segment's length, or 0 at
/// the end of the packet.
pub fn next_segment(f: &mut Vorbis) -> (r: i32)
    requires
        old(f).wf(),
        old(f).bytes_in_seg == 0,
    ensures
        final(f).wf(),
        final(f).same_setup(&*old(f)),
        0 <= r <= 255,
        final(f).bytes_in_seg == r,
        final(f).valid_bits == old(f).valid_bits,
        final(f).acc == old(f).acc,
        final(f).packet_bytes == old(f).packet_bytes,
        old(f).last_seg ==> r == 0 && *final(f) == *old(f),
        !old(f).last_seg ==> progress(*final(f)) < progress(*old(f)),
        r == 0 ==> final(f).last_seg || final(f).error == VorbisError::ContinuedPacketFlagInvalid,
        !old(f).last_seg && old(f).next_seg != -1 ==> r == old(f).segments@[old(f).next_seg as int]
            && final(f).last_seg == (r < 255)
            && final(f).next_seg == (if old(f).next_seg + 1 >= old(f).segment_count { -1 } else { old(f).next_seg + 1 })
            && final(f).pos == old(f).pos
            && final(f).segments == old(f).segments
            && final(f).segment_count == old(f).segment_count,
        final(f).current_loc == old(f).current_loc && final(f).current_loc_valid == old(f).current_loc_valid,
{
    if f.last_seg {
        return 0;
    }
    let ghost f0 = *f;
    if f.next_seg == -1 {
        f.last_seg_which = f.segment_count - 1;
        if !start_page(f) {
            f.last_seg = true;
            return 0;
        }
        if (f.page_flag & PAGEFLAG_CONTINUED_PACKET) == 0 {
            error(f, VorbisError::ContinuedPacketFlagInvalid);
            assert(f.pos > f0.pos);
            return 0;
        }
    }
    let len = f.segments[f.next_seg as usize];
    f.next_seg = f.next_seg + 1;
    if len < 255 {
        f.last_seg = true;
        f.last_seg_which = f.next_seg - 1;
    }
    if f.next_seg >= f.segment_count {
        f.next_seg = -1;
    }
    f.bytes_in_seg = len;
    len as i32
}

/// Reads the next byte of the current packet, or EOP at its end.
pub fn get8_packet_raw(f: &mut Vorbis) -> (r: i32)
    requires
        old(f).wf(),
    ensures
        final(f).wf(),
        final(f).same_setup(&*old(f)),
        r == EOP || 0 <= r < 256,
        final(f).valid_bits == old(f).valid_bits,
        final(f).acc == old(f).acc,
        r != EOP ==> progress(*final(f)) < progress(*old(f)),
        r == EOP ==> progress(*final(f)) <= progress(*old(f)),
        r > 0 ==> progress(*final(f)) + 0x400_0000 <= progress(*old(f)),
        old(f).bytes_in_seg == 0 && old(f).last_seg ==> r == EOP && *final(f) == *old(f),
        old(f).bytes_in_seg > 0 ==> r == byte_at(old(f).data@, old(f).pos as int)
            && *final(f) == (Vorbis { bytes_in_seg: (old(f).bytes_in_seg - 1) as u8,
                packet_bytes: old(f).packet_bytes.wrapping_add(1),
                pos: advance(old(f).pos as int, 1, old(f).data@.len() as int) as usize,
                eof: old(f).eof || old(f).pos >= old(f).data@.len(), ..*old(f) }),
        page_bytes_left(*old(f)) > 0 ==> r == byte_at(old(f).data@, old(f).pos as int)
            && final(f).pos == advance(old(f).pos as int, 1, old(f).data@.len() as int)
            && page_bytes_left(*final(f)) == page_bytes_left(*old(f)) - 1,
        !old(f).last_seg || old(f).bytes_in_seg > 0 ==> progress(*final(f)) < progress(*old(f)),
        r == EOP ==> final(f).bytes_in_seg == 0
            && (final(f).last_seg || final(f).error == VorbisError::ContinuedPacketFlagInvalid),
        final(f).current_loc == old(f).current_loc && final(f).current_loc_valid == old(f).current_loc_valid,
{
    let ghost f0 = *f;
    if f.bytes_in_seg == 0 {
        if f.last_seg {
            return EOP;
        } else if next_segment(f) == 0 {
            return EOP;
        }
        proof {
            if page_bytes_left(f0) > 0 {
                let k = f0.next_seg as int;
                assert(0 <= k < f0.segment_count);
                assert(segment_run(f0.segments@, k, f0.segment_count as int) == f0.segments@[k] as int
                    + (if f0.segments@[k] < 255 { 0 } else { segment_run(f0.segments@, k + 1, f0.segment_count as int) }));
                if k + 1 >= f0.segment_count {
                    assert(segment_run(f0.segments@, k + 1, f0.segment_count as int) == 0);
                }
                assert(page_bytes_left(*f) == page_bytes_left(f0));
            }
        }
    }
    f.bytes_in_seg = f.bytes_in_seg - 1;
    f.packet_bytes = f.packet_bytes.wrapping_add(1);
    get8(f) as i32
}

/// Reads the next byte of the current packet and drops the pending bits.
pub fn get8_packet(f: &mut Vorbis) -> (r: i32)
    requires
        old(f).wf(),
    ensures
        final(f).wf(),
        final(f).same_setup(&*old(f)),
        r == EOP || 0 <= r < 256,
        final(f).valid_bits == 0,
        r != EOP ==> progress(*final(f)) < progress(*old(f)),
        r == EOP ==> progress(*final(f)) <= progress(*old(f)),
        old(f).bytes_in_seg > 0 ==> r == byte_at(old(f).data@, old(f).pos as int),
        final(f).current_loc == old(f).current_loc && final(f).current_loc_valid == old(f).current_loc_valid,
{
    let x = get8_packet_raw(f);
    f.valid_bits = 0;
    x
}

/// Skips the rest of the current packet.
pub fn flush_packet(f: &mut Vorbis)
    requires
        old(f).wf(),
    ensures
        final(f).wf(),
        final(f).same_setup(&*old(f)),
        final(f).valid_bits == old(f).valid_bits,
        progress(*final(f)) <= progress(*old(f)),
        final(f).bytes_in_seg == 0,
        final(f).last_seg || final(f).error == VorbisError::ContinuedPacketFlagInvalid,
        !old(f).last_seg || old(f).bytes_in_seg > 0 ==> progress(*final(f)) < progress(*old(f)),
        final(f).current_loc == old(f).current_loc && final(f).current_loc_valid == old(f).current_loc_valid,
{
    let mut first = true;
    loop
        invariant
            f.current_loc == old(f).current_loc && f.current_loc_valid == old(f).current_loc_valid,
            f.wf(),
            f.same_setup(&*old(f)),
            f.valid_bits == old(f).valid_bits,
            progress(*f) <= progress(*old(f)),
            !first && (!old(f).last_seg || old(f).bytes_in_seg > 0) ==> progress(*f) < progress(*old(f)),
            first ==> *f == *old(f),
        ensures
            f.wf(),
            f.same_setup(&*old(f)),
            f.valid_bits == old(f).valid_bits,
            progress(*f) <= progress(*old(f)),
            f.bytes_in_seg == 0,
            f.last_seg || f.error == VorbisError::ContinuedPacketFlagInvalid,
            !old(f).last_seg || old(f).bytes_in_seg > 0 ==> progress(*f) < progress(*old(f)),
        decreases progress(*f),
    {
        let ghost before = progress(*f);
        let z = get8_packet_raw(f);
        first = false;
        if z == EOP {
            break;
        }
        assert(progress(*f) < before);
    }
}

/// Appends the byte `z` above the `vb` pending bits of `acc`.
proof fn lemma_append_byte(acc: u32, vb: int, z: int)
    requires
        0 <= vb <= 24,
        vb == 0 ==> acc == 0,
        vb > 0 ==> acc < pow2(vb as nat),
        0 <= z < 256,
    ensures
        acc + z * pow2(vb as nat) < pow2((vb + 8) as nat),
        pow2((vb + 8) as nat) <= 0x1_0000_0000,
        (z as u32) << (vb as u32) == z * pow2(vb as nat),
        vb + 8 < 32 ==> acc + z * pow2(vb as nat) < pow2((vb + 8) as nat),
{
    vstd::arithmetic::power2::lemma2_to64();
    vstd::arithmetic::power2::lemma_pow2_pos(vb as nat);
    vstd::arithmetic::power2::lemma_pow2_adds(vb as nat, 8);
    assert(acc + z * pow2(vb as nat) < pow2((vb + 8) as nat)) by (nonlinear_arith)
        requires acc < pow2(vb as nat) || vb == 0, vb == 0 ==> acc == 0, 0 <= z < 256,
            pow2((vb + 8) as nat) == pow2(vb as nat) * pow2(8), pow2(8) == 256, vb == 0 ==> pow2(vb as nat) == 1;
    if vb + 8 < 32 {
        vstd::arithmetic::power2::lemma_pow2_strictly_increases((vb + 8) as nat, 32);
    } else {
        assert(vb + 8 == 32);
    }
    assert(z * pow2(vb as nat) <= 0xffff_ffff) by (nonlinear_arith)
        requires acc + z * pow2(vb as nat) < pow2((vb + 8) as nat), pow2((vb + 8) as nat) <= 0x1_0000_0000, acc >= 0;
    vstd::bits::lemma_u32_shl_is_mul(z as u32, vb as u32);
}

/// The current packet has ended: no bytes are left in its segment, and
/// it was the last segment (or the next page wrongly continued a packet).
pub open spec fn packet_ended(f: Vorbis) -> bool {
    f.bytes_in_seg == 0 && (f.last_seg || f.error == VorbisError::ContinuedPacketFlagInvalid)
}

/// A read from `f0` to `f` left the bit reader invalid only at the end of
/// the packet, or found it invalid and left the packet's state alone.
#[verifier::opaque]
pub open spec fn invalid_only_at_end(f0: Vorbis, f: Vorbis) -> bool {
    f.valid_bits == INVALID_BITS ==> packet_ended(f) || (f0.valid_bits == INVALID_BITS
        && f.bytes_in_seg == f0.bytes_in_seg && f.last_seg == f0.last_seg && f.error == f0.error)
}

/// Reads whole bytes of the packet into the accumulator until it holds at
/// least `n` bits; false (and `valid_bits` invalid) at the end of the packet.
fn fill_bits(f: &mut Vorbis, n: i32) -> (r: bool)
    requires
        old(f).wf(),
        0 <= old(f).valid_bits < n <= 24,
    ensures
        final(f).wf(),
        final(f).same_setup(&*old(f)),
        progress(*final(f)) <= progress(*old(f)),
        r ==> n <= final(f).valid_bits <= 31,
        !r ==> final(f).valid_bits == INVALID_BITS,
        !r ==> packet_ended(*final(f)),
        r && old(f).valid_bits == 0 ==> final(f).acc == 0 || progress(*final(f)) + 0x400_0000 <= progress(*old(f)),
        n <= bits_in_page(*old(f)) ==> r && page_bits(*final(f)) == page_bits(*old(f))
            && bits_in_page(*final(f)) == bits_in_page(*old(f)),
        final(f).current_loc == old(f).current_loc && final(f).current_loc_valid == old(f).current_loc_valid,
{
    if f.valid_bits == 0 {
        f.acc = 0;
        proof {
            vstd::arithmetic::power2::lemma2_to64();
            assert(old(f).acc as int % 1 == 0);
        }
    }
    while f.valid_bits < n
        invariant
            f.current_loc == old(f).current_loc && f.current_loc_valid == old(f).current_loc_valid,
            f.wf(),
            f.same_setup(&*old(f)),
            0 <= f.valid_bits <= 31,
            n <= 24,
            f.valid_bits == 0 ==> f.acc == 0,
            progress(*f) <= progress(*old(f)),
            old(f).valid_bits == 0 ==> f.acc == 0 || progress(*f) + 0x400_0000 <= progress(*old(f)),
            n <= bits_in_page(*old(f)) ==> page_bits(*f) == page_bits(*old(f)) && bits_in_page(*f) == bits_in_page(*old(f)),
        decreases 32 - f.valid_bits,
    {
        let ghost f1 = *f;
        let z = get8_packet_raw(f);
        if z == EOP {
            f.valid_bits = INVALID_BITS;
            return false;
        }
        let vb = f.valid_bits;
        let acc = f.acc;
        proof {
            lemma_append_byte(acc, vb as int, z as int);
            if n <= bits_in_page(*old(f)) {
                let left = page_bytes_left(f1);
                assert(left > 0);
                lemma_bytes_step(f1.data@, f1.pos as int, left as nat);
                vstd::arithmetic::power2::lemma2_to64();
                if vb == 0 {
                    assert(acc == 0);
                }
                lemma_append_value(acc as int, vb as nat, z as int,
                    bytes_value(f1.data@, f1.pos as int, left as nat) as int,
                    bytes_value(f.data@, f.pos as int, (left - 1) as nat) as int);
            }
        }
        let ghost before = progress(*f);
        let sh = (z as u32) << (vb as u32);
        proof {
            if z == 0 {
                assert(sh == 0) by (bit_vector) requires z == 0, sh == (z as u32) << (vb as u32);
            }
        }
        f.acc = acc + sh;
        f.valid_bits = vb + 8;
        proof {
            if z == 0 {
                assert(f.acc == acc);
            }
            assert(progress(*f) == before);
        }
    }
    true
}

/// Takes the low `n` of the pending bits.
fn take_bits(f: &mut Vorbis, n: i32) -> (r: u32)
    requires
        old(f).wf(),
        0 <= n <= old(f).valid_bits,
    ensures
        final(f).wf(),
        r == old(f).acc as int % pow2(n as nat) as int,
        n < 32 ==> r < pow2(n as nat),
        *final(f) == (Vorbis { acc: (old(f).acc as int / pow2(n as nat) as int) as u32,
            valid_bits: (old(f).valid_bits - n) as i32, ..*old(f) }),
        r == page_bits(*old(f)) % pow2(n as nat) as int,
        page_bits(*final(f)) == page_bits(*old(f)) / pow2(n as nat) as int,
        final(f).current_loc == old(f).current_loc && final(f).current_loc_valid == old(f).current_loc_valid,
{
    proof {
        lemma_split_bits(f.acc as int, f.valid_bits as nat, n as nat,
            bytes_value(f.data@, f.pos as int, page_bytes_left(*f) as nat) as int);
    }
    proof {
        vstd::arithmetic::power2::lemma2_to64();
        vstd::arithmetic::power2::lemma_pow2_pos(n as nat);
    }
    let vb = f.valid_bits;
    let acc = f.acc;
    let z: u32;
    if n == 32 {
        z = acc;
        f.acc = 0;
        proof {
            vstd::arithmetic::div_mod::lemma_small_mod(acc as nat, pow2(32));
            vstd::arithmetic::div_mod::lemma_basic_div(acc as int, pow2(32) as int);
        }
    } else {
        proof {
            vstd::bits::lemma_u32_pow2_no_overflow(n as nat);
            vstd::bits::lemma_u32_shl_is_mul(1, n as u32);
        }
        let mask: u32 = ((1u32 << (n as u32)) - 1) as u32;
        proof {
            assert(mask == vstd::bits::low_bits_mask(n as nat));
            vstd::bits::lemma_u32_low_bits_mask_is_mod(acc, n as nat);
            vstd::bits::lemma_u32_shr_is_div(acc, n as u32);
        }
        z = acc & mask;
        f.acc = acc >> (n as u32);
        proof {
            vstd::arithmetic::div_mod::lemma_mod_bound(acc as int, pow2(n as nat) as int);
        }
    }
    proof {
        if vb - n > 0 && vb < 32 {
            vstd::arithmetic::power2::lemma_pow2_adds(n as nat, (vb - n) as nat);
            vstd::arithmetic::div_mod::lemma_multiply_divide_lt(acc as int, pow2(n as nat) as int, pow2((vb - n) as nat) as int);
        }
        if vb - n > 0 && vb == 32 {
            vstd::arithmetic::power2::lemma_pow2_adds(n as nat, (vb - n) as nat);
            vstd::arithmetic::div_mod::lemma_multiply_divide_lt(acc as int, pow2(n as nat) as int, pow2((vb - n) as nat) as int);
        }
    }
    f.valid_bits = vb - n;
    z
}

/// Dropping `n` of the pending bits moves `n` bits on in the page.
pub(crate) proof fn lemma_drop_pending(f0: Vorbis, f1: Vorbis, n: nat)
    requires
        0 <= f0.valid_bits,
        n <= f0.valid_bits,
        f1 == (Vorbis { acc: (f0.acc as int / pow2(n) as int) as u32,
            valid_bits: (f0.valid_bits - n) as i32, ..f0 }),
    ensures
        page_bits(f1) == page_bits(f0) / pow2(n) as int,
        bits_in_page(f1) == bits_in_page(f0) - n,
{
    lemma_page_bytes_left_nonneg(f0);
    vstd::arithmetic::power2::lemma_pow2_pos(n);
    vstd::arithmetic::div_mod::lemma_div_is_ordered_by_denominator(f0.acc as int, 1, pow2(n) as int);
    vstd::arithmetic::div_mod::lemma_div_pos_is_pos(f0.acc as int, pow2(n) as int);
    lemma_split_bits(f0.acc as int, f0.valid_bits as nat, n,
        bytes_value(f0.data@, f0.pos as int, page_bytes_left(f0) as nat) as int);
}

/// Reads the next `n` bits of the current packet, first bit lowest; 0 once
/// a read has run past the end of the packet.
pub fn get_bits(f: &mut Vorbis, n: i32) -> (r: u32)
    requires
        old(f).wf(),
        0 <= n <= 32,
    ensures
        final(f).wf(),
        final(f).same_setup(&*old(f)),
        n < 32 ==> r < pow2(n as nat),
        progress(*final(f)) <= progress(*old(f)),
        old(f).valid_bits == 0 && 1 <= n <= 24 && r != 0 ==> progress(*final(f)) + 0x400_0000 <= progress(*old(f)),
        old(f).valid_bits < 0 ==> r == 0 && *final(f) == *old(f),
        0 <= n <= old(f).valid_bits ==> r == old(f).acc as int % pow2(n as nat) as int
            && *final(f) == (Vorbis { acc: (old(f).acc as int / pow2(n as nat) as int) as u32,
                valid_bits: (old(f).valid_bits - n) as i32, ..*old(f) }),
        0 <= old(f).valid_bits && n <= bits_in_page(*old(f)) ==> r == page_bits(*old(f)) % pow2(n as nat) as int
            && page_bits(*final(f)) == page_bits(*old(f)) / pow2(n as nat) as int
            && bits_in_page(*final(f)) == bits_in_page(*old(f)) - n
            && final(f).valid_bits >= 0,
        invalid_only_at_end(*old(f), *final(f)),
        final(f).current_loc == old(f).current_loc && final(f).current_loc_valid == old(f).current_loc_valid,
    decreases n,
{
    reveal(invalid_only_at_end);
    proof {
        vstd::arithmetic::power2::lemma2_to64();
        vstd::arithmetic::power2::lemma_pow2_pos(n as nat);
    }
    if f.valid_bits < 0 {
        return 0;
    }
    if f.valid_bits < n {
        if n > 24 {
            let z1 = get_bits(f, 24);
            let z2 = get_bits(f, n - 24);
            assert(z2 < 256) by {
                if n - 24 < 8 {
                    vstd::arithmetic::power2::lemma_pow2_strictly_increases((n - 24) as nat, 8);
                }
            }
            proof {
                if n < 32 {
                    vstd::arithmetic::power2::lemma_pow2_adds(24, (n - 24) as nat);
                    assert(z1 + z2 * pow2(24) < pow2(n as nat)) by (nonlinear_arith)
                        requires z1 < pow2(24), z2 < pow2((n - 24) as nat), pow2(n as nat) == pow2(24) * pow2((n - 24) as nat);
                }
            }
            let hi = z2 << 24;
            assert(hi == z2 * 0x100_0000) by (bit_vector) requires z2 < 256, hi == z2 << 24;
            proof {
                if n <= bits_in_page(*old(f)) {
                    let p = page_bits(*old(f));
                    lemma_page_bits_nonneg(*old(f));
                    vstd::arithmetic::power2::lemma_pow2_adds(24, (n - 24) as nat);
                    vstd::arithmetic::power2::lemma_pow2_pos((n - 24) as nat);
                    vstd::arithmetic::div_mod::lemma_breakdown(p, pow2(24) as int, pow2((n - 24) as nat) as int);
                    vstd::arithmetic::div_mod::lemma_div_denominator(p, pow2(24) as int, pow2((n - 24) as nat) as int);
                }
            }
            return z1 + hi;
        }
        if !fill_bits(f, n) {
            return 0;
        }
    }
    let ghost acc_before = f.acc;
    let r = take_bits(f, n);
    proof {
        if acc_before == 0 {
            vstd::arithmetic::div_mod::lemma_small_mod(0, pow2(n as nat));
        }
    }
    r
}

/// Reads the next `n` bits as `get_bits` does, for a reader that follows
/// where it stands in the bits `p` of the page: within them, what it reads
/// is the field there.
pub(crate) fn get_field(f: &mut Vorbis, n: i32, Ghost(p): Ghost<int>, Ghost(pos): Ghost<int>, Ghost(t): Ghost<int>) -> (r: u32)
    requires
        old(f).wf(),
        0 <= n <= 32,
    ensures
        final(f).wf(),
        final(f).same_setup(&*old(f)),
        n < 32 ==> r < pow2(n as nat),
        progress(*final(f)) <= progress(*old(f)),
        reading_at(*old(f), p, pos, t) && pos + n <= t ==> r == bit_field(p, pos as nat, n as nat)
            && reading_at(*final(f), p, pos + n, t),
        invalid_only_at_end(*old(f), *final(f)),
        final(f).current_loc == old(f).current_loc && final(f).current_loc_valid == old(f).current_loc_valid,
{
    reveal(invalid_only_at_end);
    let ghost f0 = *f;
    let r = get_bits(f, n);
    proof {
        if reading_at(f0, p, pos, t) && pos + n <= t {
            lemma_bits_after(p, pos as nat, n as nat);
        }
    }
    r
}

proof fn lemma_mod_append(acc: u32, z: int, vb: int, vb0: int)
    requires
        0 < vb0 <= vb,
        0 <= z,
    ensures
        (acc + z * pow2(vb as nat)) % (pow2(vb0 as nat) as int) == acc as int % (pow2(vb0 as nat) as int),
{
    vstd::arithmetic::power2::lemma_pow2_adds(vb0 as nat, (vb - vb0) as nat);
    vstd::arithmetic::power2::lemma_pow2_pos(vb0 as nat);
    let m = pow2(vb0 as nat) as int;
    let k = z * pow2((vb - vb0) as nat);
    assert(z * pow2(vb as nat) == m * k) by (nonlinear_arith)
        requires pow2(vb as nat) == pow2(vb0 as nat) * pow2((vb - vb0) as nat), m == pow2(vb0 as nat), k == z * pow2((vb - vb0) as nat);
    vstd::arithmetic::div_mod::lemma_mod_multiples_vanish(k, acc as int, m);
}

/// Fills the bit accumulator with whole bytes of the packet while it has
/// room, stopping at the end of the packet.
#[verifier::loop_isolation(false)]
pub fn prep_huffman(f: &mut Vorbis)
    requires
        old(f).wf(),
    ensures
        final(f).wf(),
        final(f).same_setup(&*old(f)),
        progress(*final(f)) <= progress(*old(f)),
        old(f).valid_bits < 0 || old(f).valid_bits > 24 ==> *final(f) == *old(f),
        0 <= old(f).valid_bits ==> old(f).valid_bits <= final(f).valid_bits,
        0 < old(f).valid_bits ==> final(f).acc as int % pow2(old(f).valid_bits as nat) as int == old(f).acc,
        0 <= old(f).valid_bits ==> final(f).valid_bits >= min(bits_in_page(*old(f)), 25),
        0 <= old(f).valid_bits ==> final(f).acc as int % pow2(min(final(f).valid_bits as int, bits_in_page(*old(f))) as nat) as int
            == page_bits(*old(f)) % pow2(min(final(f).valid_bits as int, bits_in_page(*old(f))) as nat) as int,
        final(f).valid_bits == INVALID_BITS ==> *final(f) == *old(f),
        0 <= old(f).valid_bits && final(f).valid_bits < bits_in_page(*old(f))
            ==> page_bits(*final(f)) == page_bits(*old(f)) && bits_in_page(*final(f)) == bits_in_page(*old(f)),
{
    proof {
        vstd::arithmetic::power2::lemma2_to64();
        if 0 < f.valid_bits {
            vstd::arithmetic::div_mod::lemma_small_mod(f.acc as nat, pow2(f.valid_bits as nat));
        }
        if 0 <= f.valid_bits {
            lemma_page_bits_nonneg(*f);
            lemma_page_bytes_left_nonneg(*f);
            lemma_split_bits(f.acc as int, f.valid_bits as nat, min(f.valid_bits as int, bits_in_page(*f)) as nat,
                bytes_value(f.data@, f.pos as int, page_bytes_left(*f) as nat) as int);
        }
    }
    if f.valid_bits < 0 || f.valid_bits > 24 {
        return;
    }
    if f.valid_bits == 0 {
        f.acc = 0;
        proof {
            assert(old(f).acc as int % 1 == 0);
            assert(0int % 1 == 0);
        }
    }
    let ghost vb0 = f.valid_bits;
    let ghost acc0 = f.acc;
    let ghost p0 = page_bits(*old(f));
    let ghost t0 = bits_in_page(*old(f));
    proof {
        lemma_page_bits_nonneg(*old(f));
    }
    while f.valid_bits <= 24
        invariant
            f.wf(),
            f.same_setup(&*old(f)),
            0 <= vb0 <= f.valid_bits <= 32,
            vb0 == old(f).valid_bits,
            vb0 > 0 ==> acc0 == old(f).acc,
            f.valid_bits == 0 ==> f.acc == 0,
            vb0 > 0 ==> f.acc as int % pow2(vb0 as nat) as int == acc0,
            progress(*f) <= progress(*old(f)),
            p0 == page_bits(*old(f)),
            t0 == bits_in_page(*old(f)),
            p0 >= 0,
            f.valid_bits < t0 ==> page_bits(*f) == p0 && bits_in_page(*f) == t0,
            f.acc as int % pow2(min(f.valid_bits as int, t0) as nat) as int == p0 % pow2(min(f.valid_bits as int, t0) as nat) as int,
        decreases 32 - f.valid_bits,
    {
        let ghost f1 = *f;
        if f.last_seg && f.bytes_in_seg == 0 {
            return;
        }
        let z = get8_packet_raw(f);
        if z == EOP {
            return;
        }
        let vb = f.valid_bits;
        let acc = f.acc;
        proof {
            lemma_append_byte(acc, vb as int, z as int);
            if vb0 > 0 {
                lemma_mod_append(acc, z as int, vb as int, vb0 as int);
            }
        }
        f.acc = acc + ((z as u32) << (vb as u32));
        f.valid_bits = vb + 8;
        proof {
            let m = min(f.valid_bits as int, t0);
            if vb < t0 {
                let left = page_bytes_left(f1);
                assert(left > 0);
                lemma_bytes_step(f1.data@, f1.pos as int, left as nat);
                if vb == 0 {
                    assert(acc == 0);
                }
                lemma_append_value(acc as int, vb as nat, z as int,
                    bytes_value(f1.data@, f1.pos as int, left as nat) as int,
                    bytes_value(f.data@, f.pos as int, (left - 1) as nat) as int);
                assert(page_bits(*f) == p0);
                lemma_split_bits(f.acc as int, f.valid_bits as nat, m as nat,
                    bytes_value(f.data@, f.pos as int, page_bytes_left(*f) as nat) as int);
            } else {
                assert(m == t0);
                if t0 > 0 {
                    lemma_mod_append(acc, z as int, vb as int, t0);
                }
            }
        }
    }
}

} // verus!
