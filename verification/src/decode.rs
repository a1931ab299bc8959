use vstd::prelude::*;
use crate::bits::ilog;
use crate::ogg::{invalid_only_at_end, packet_ended, lemma_page_bits_nonneg, get_bits, get_field, get8_packet, maybe_start_packet, progress, page_bits, bits_in_page, bit_field, reading_at};
use crate::bits::ilog_spec;
use crate::setup::{setup_ok, mapping_ok, floor1_ok};
use crate::floor::{read_floor1_values, floor1_step2, floor1_range};
use crate::types::{Codebook, Floor, Mapping, MappingChannel};
use crate::types::{VorbisError, VorbisInfo};
use crate::vorbis::{Vorbis, error, skip, set_file_offset, EOP, PAGEFLAG_LAST_PAGE, INVALID_BITS};

verus! {

/// The window of a block of `n` samples: where its left slope starts and
/// ends and where its right slope starts and ends. A long block whose
/// neighbour on a side is short (`prev` or `next` false) has on that side a
/// slope as short as a short block's, centred on its quarter.
pub open spec fn window_spec(n: int, b0: int, long: bool, prev: bool, next: bool) -> (int, int, int, int) {
    let center = n / 2;
    let left = if long && !prev { ((n - b0) / 4, (n + b0) / 4) } else { (0, center) };
    let right = if long && !next { ((3 * n - b0) / 4, (3 * n + b0) / 4) } else { (center, n) };
    (left.0, left.1, right.0, right.1)
}

/// The window of a block of mode `mode` of the decoder `f`, given whether
/// the previous and next blocks are long.
pub open spec fn mode_window(f: Vorbis, mode: int, prev: bool, next: bool) -> (int, int, int, int) {
    let long = f.mode_config@[mode].blockflag != 0;
    let n = if long { f.blocksize_1 } else { f.blocksize_0 };
    window_spec(n as int, f.blocksize_0 as int, long, prev, next)
}

/// The bounds `ls`, `le`, `rs`, `re` are the window `w`.
pub open spec fn window_matches(w: (int, int, int, int), ls: i32, le: i32, rs: i32, re: i32) -> bool {
    w.0 == ls && w.1 == le && w.2 == rs && w.3 == re
}

/// The bounds are the window of a block of mode `mode` for some sizes of
/// the neighbouring blocks.
pub open spec fn mode_window_ok(f: Vorbis, mode: i32, ls: i32, le: i32, rs: i32, re: i32) -> bool {
    exists|prev: bool, next: bool| #[trigger] window_matches(mode_window(f, mode as int, prev, next), ls, le, rs, re)
}

/// The slopes of a window: the left one is set by the previous block
/// alone and the right one by the next block alone. A long block whose
/// previous block is short has a left slope as short as a short block's,
/// centred on n/4 (else it runs from 0 to the centre); a long block whose
/// next block is short has a right slope as short as a short block's,
/// centred on 3n/4 (else it runs from the centre to n). A short block's
/// slopes are always full.
pub proof fn lemma_window_sides(n: int, b0: int, long: bool, prev: bool, next: bool, other: bool)
    ensures
        window_spec(n, b0, long, prev, next).0 == window_spec(n, b0, long, prev, other).0,
        window_spec(n, b0, long, prev, next).1 == window_spec(n, b0, long, prev, other).1,
        window_spec(n, b0, long, prev, next).2 == window_spec(n, b0, long, other, next).2,
        window_spec(n, b0, long, prev, next).3 == window_spec(n, b0, long, other, next).3,
        long && !prev ==> window_spec(n, b0, long, prev, next).0 == (n - b0) / 4
            && window_spec(n, b0, long, prev, next).1 == (n + b0) / 4,
        !(long && !prev) ==> window_spec(n, b0, long, prev, next).0 == 0
            && window_spec(n, b0, long, prev, next).1 == n / 2,
        long && !next ==> window_spec(n, b0, long, prev, next).2 == (3 * n - b0) / 4
            && window_spec(n, b0, long, prev, next).3 == (3 * n + b0) / 4,
        !(long && !next) ==> window_spec(n, b0, long, prev, next).2 == n / 2
            && window_spec(n, b0, long, prev, next).3 == n,
{
}

/// The window bounds of a block (see `window_spec`).
pub fn window_bounds(n: usize, b0: usize, long: bool, prev: bool, next: bool) -> (r: (i32, i32, i32, i32))
    requires
        b0 <= n <= 8192,
    ensures
        (r.0 as int, r.1 as int, r.2 as int, r.3 as int) == window_spec(n as int, b0 as int, long, prev, next),
        0 <= r.0 <= r.1 <= r.2 <= r.3 <= n,
        long && !prev ==> r.0 == (n - b0) / 4 && r.1 == (n + b0) / 4,
        !(long && !prev) ==> r.0 == 0 && r.1 == n / 2,
        long && !next ==> r.2 == (3 * n - b0) / 4 && r.3 == (3 * n + b0) / 4,
        !(long && !next) ==> r.2 == n / 2 && r.3 == n,
{
    let n = n as i32;
    let b0 = b0 as i32;
    let center = n / 2;
    let (ls, le) = if long && !prev { ((n - b0) / 4, (n + b0) / 4) } else { (0, center) };
    let (rs, re) = if long && !next { ((3 * n - b0) / 4, (3 * n + b0) / 4) } else { (center, n) };
    (ls, le, rs, re)
}

/// `g` is a decoder state at the start of a packet, and `h` the state
/// after reading its first bit, which was `bit` (where the page holds it).
pub open spec fn read_first_bit(g: Vorbis, h: Vorbis, bit: int) -> bool {
    &&& !g.last_seg && g.valid_bits == 0 && g.bytes_in_seg == 0 && g.next_seg != -1
    &&& g.data == h.data
    &&& 1 <= bits_in_page(g) ==> page_bits(g) % 2 == bit && page_bits(h) == page_bits(g) / 2
        && bits_in_page(h) == bits_in_page(g) - 1 && h.valid_bits >= 0
}

/// The state of `f` once a packet has been started at its next segment.
pub open spec fn packet_start_state(f: Vorbis) -> Vorbis {
    Vorbis { last_seg: false, valid_bits: 0, packet_bytes: 0, bytes_in_seg: 0, ..f }
}

/// How many bits a mode number takes.
pub open spec fn mode_bits(f: Vorbis) -> int {
    ilog_spec(f.mode_count - 1)
}

/// The bits of the packet that starts at the next segment of `f`, as far
/// as its page holds them, first bit lowest.
pub open spec fn header_bits(f: Vorbis) -> int {
    page_bits(packet_start_state(f))
}

/// The mode number that packet records after its packet-type bit.
pub open spec fn header_mode(f: Vorbis) -> int {
    bit_field(header_bits(f), 1, mode_bits(f) as nat)
}

/// Whether the mode of that packet is a long block.
pub open spec fn header_long(f: Vorbis) -> bool {
    f.mode_config@[header_mode(f)].blockflag != 0
}

/// How many bits the packet's header takes: its type bit, its mode and,
/// for a long block, the flags of the neighbouring blocks.
pub open spec fn header_length(f: Vorbis) -> int {
    1 + mode_bits(f) + (if header_long(f) { 2int } else { 0 })
}

/// The stream stands where an audio packet starts inside the current page,
/// and the page holds its header: a type bit of 0 and a valid mode number
/// (with the flags of a long block).
pub open spec fn header_in_page(f: Vorbis) -> bool {
    &&& !f.eof
    &&& f.next_seg != -1
    &&& 1 + mode_bits(f) <= bits_in_page(packet_start_state(f))
    &&& header_bits(f) % 2 == 0
    &&& header_mode(f) < f.mode_count
    &&& header_length(f) <= bits_in_page(packet_start_state(f))
}

/// How many bytes hold the packet's header.
pub open spec fn header_bytes(f: Vorbis) -> int {
    (header_length(f) + 7) / 8
}

/// The window that header gives.
pub open spec fn header_window(f: Vorbis) -> (int, int, int, int) {
    let x = mode_bits(f);
    mode_window(f, header_mode(f), bit_field(header_bits(f), (1 + x) as nat, 1) != 0,
        bit_field(header_bits(f), (2 + x) as nat, 1) != 0)
}

/// Moves to the next audio packet: starts packets until one begins with
/// the audio packet-type bit 0, skipping the others (an error in push mode).
fn start_audio_packet(f: &mut Vorbis) -> (r: bool)
    requires
        old(f).wf(),
    ensures
        final(f).wf(),
        final(f).same_setup(&*old(f)),
        old(f).eof ==> !r && *final(f) == *old(f),
        r ==> exists|g: Vorbis| #[trigger] read_first_bit(g, *final(f), 0),
        !old(f).eof && old(f).next_seg != -1 && 1 <= bits_in_page(packet_start_state(*old(f)))
            && page_bits(packet_start_state(*old(f))) % 2 == 0
            ==> r && read_first_bit(packet_start_state(*old(f)), *final(f), 0),
        final(f).current_loc == old(f).current_loc && final(f).current_loc_valid == old(f).current_loc_valid,
{
    let ghost starts = !old(f).eof && old(f).next_seg != -1 && 1 <= bits_in_page(packet_start_state(*old(f)))
        && page_bits(packet_start_state(*old(f))) % 2 == 0;
    loop
        invariant
            f.current_loc == old(f).current_loc && f.current_loc_valid == old(f).current_loc_valid,
            f.wf(),
            f.same_setup(&*old(f)),
            old(f).eof ==> *f == *old(f),
            starts ==> *f == *old(f),
            starts == (!old(f).eof && old(f).next_seg != -1 && 1 <= bits_in_page(packet_start_state(*old(f)))
                && page_bits(packet_start_state(*old(f))) % 2 == 0),
        decreases progress(*f),
    {
        if f.eof {
            return false;
        }
        let ghost top = progress(*f);
        if !maybe_start_packet(f) {
            return false;
        }
        let ghost g = *f;
        proof { vstd::arithmetic::power2::lemma2_to64(); }
        let bit = get_bits(f, 1);
        proof {
            if bit == 0 {
                assert(read_first_bit(g, *f, 0));
            }
            if starts {
                assert(g == packet_start_state(*old(f)));
            }
        }
        if bit != 0 {
            if f.push_mode {
                error(f, VorbisError::BadPacketType);
                return false;
            }
            loop
                invariant
                    f.current_loc == old(f).current_loc && f.current_loc_valid == old(f).current_loc_valid,
                    f.wf(),
                    f.same_setup(&*old(f)),
                    progress(*f) < top,
                    !old(f).eof,
                    !starts,
                decreases progress(*f),
            {
                if get8_packet(f) == EOP {
                    break;
                }
            }
            continue;
        }
        return true;
    }
}

/// Starts decoding an audio packet: skips packets that are not audio (an
/// error in push mode), reads the mode number and, for a long block, the
/// sizes of the neighbouring blocks. Gives the mode and the window bounds.
pub fn vorbis_decode_initial(f: &mut Vorbis) -> (r: Option<(i32, i32, i32, i32, i32)>)
    requires
        old(f).wf(),
        setup_ok(*old(f)),
    ensures
        final(f).wf(),
        final(f).same_setup(&*old(f)),
        final(f).channel_buffer_start == 0,
        final(f).channel_buffer_end == 0,
        r matches Some(t) ==> 0 <= t.0 < old(f).mode_count,
        r matches Some(t) ==> mode_window_ok(*old(f), t.0, t.1, t.2, t.3, t.4),
        header_in_page(*old(f)) ==> (r matches Some(w) && w.0 == header_mode(*old(f))
            && window_matches(header_window(*old(f)), w.1, w.2, w.3, w.4)),
        final(f).current_loc == old(f).current_loc && final(f).current_loc_valid == old(f).current_loc_valid,
{
    let ghost exact = header_in_page(*f);
    let ghost p = header_bits(*f);
    let ghost t = bits_in_page(packet_start_state(*f));
    proof {
        vstd::arithmetic::power2::lemma2_to64();
        lemma_page_bits_nonneg(packet_start_state(*f));
    }
    let x = ilog(f.mode_count - 1);
    let ok = start_audio_packet(f);
    if !ok {
        f.channel_buffer_start = 0;
        f.channel_buffer_end = 0;
        return None;
    }
    proof {
        vstd::arithmetic::power2::lemma2_to64();
        if x < 31 {
            vstd::arithmetic::power2::lemma_pow2_strictly_increases(x as nat, 31);
        }
        if exact {
            assert(reading_at(*f, p, 1, t));
        }
    }
    let i = get_field(f, x, Ghost(p), Ghost(1), Ghost(t)) as i32;
    proof {
        if exact {
            assert(i == header_mode(*old(f)));
        }
    }
    if i >= f.mode_count {
        f.channel_buffer_start = 0;
        f.channel_buffer_end = 0;
        return None;
    }
    let blockflag = f.mode_config[i as usize].blockflag;
    let long = blockflag != 0;
    let n = if long { f.blocksize_1 } else { f.blocksize_0 };
    let mut prev = false;
    let mut next = false;
    if long {
        prev = get_field(f, 1, Ghost(p), Ghost(1 + x), Ghost(t)) != 0;
        next = get_field(f, 1, Ghost(p), Ghost(2 + x), Ghost(t)) != 0;
    }
    let (ls, le, rs, re) = window_bounds(n, f.blocksize_0, long, prev, next);
    f.channel_buffer_start = 0;
    f.channel_buffer_end = 0;
    proof {
        assert(window_matches(mode_window(*old(f), i as int, prev, next), ls, le, rs, re));
        assert(mode_window_ok(*old(f), i, ls, le, rs, re));
        if exact {
            assert(window_matches(header_window(*old(f)), ls, le, rs, re));
        }
    }
    Some((i, ls, le, rs, re))
}

/// Decodes the start of the next audio packet like `vorbis_decode_initial`,
/// then steps the stream back over the bytes the packet header took, so
/// that decoding the packet reads it again.
pub fn peek_decode_initial(f: &mut Vorbis) -> (r: Option<(i32, i32, i32, i32, i32)>)
    requires
        old(f).wf(),
        setup_ok(*old(f)),
    ensures
        final(f).wf(),
        final(f).same_setup(&*old(f)),
        r matches Some(t) ==> 0 <= t.0 < old(f).mode_count,
        r matches Some(t) ==> mode_window_ok(*old(f), t.0, t.1, t.2, t.3, t.4),
        r is Some ==> final(f).valid_bits == 0,
        header_in_page(*old(f)) ==> (r matches Some(w) ==> w.0 == header_mode(*old(f))
            && window_matches(header_window(*old(f)), w.1, w.2, w.3, w.4)),
        header_in_page(*old(f)) && r is None ==> final(f).pos < header_bytes(*old(f))
            || final(f).bytes_in_seg + header_bytes(*old(f)) > 255,
        final(f).current_loc == old(f).current_loc && final(f).current_loc_valid == old(f).current_loc_valid,
{
    let t = match vorbis_decode_initial(f) {
        None => { return None; },
        Some(t) => t,
    };
    let mode = t.0;
    let mut bits_read = 1 + ilog(f.mode_count - 1);
    if f.mode_config[mode as usize].blockflag != 0 {
        bits_read = bits_read + 2;
    }
    let bytes_read = (bits_read + 7) / 8;
    if (f.pos as i64) < bytes_read as i64 || f.bytes_in_seg as i32 + bytes_read > 255 {
        return None;
    }
    f.bytes_in_seg = (f.bytes_in_seg as i32 + bytes_read) as u8;
    f.packet_bytes = f.packet_bytes.wrapping_sub(bytes_read);
    skip(f, -bytes_read);
    if f.next_seg == -1 {
        if f.segment_count >= 1 {
            f.next_seg = f.segment_count - 1;
        }
    } else if f.next_seg >= 1 {
        f.next_seg = f.next_seg - 1;
    }
    f.valid_bits = 0;
    Some(t)
}

/// The bookkeeping that ends a frame whose samples run to `len`, whose
/// left slope starts at `left` and whose right slope starts at `right`: the
/// samples from `right` on are kept for the overlap with the next frame.
/// Gives how many samples the frame completes, `left` up to `right` (or
/// `len` when shorter), and counts them; the first frame after a start or
/// a seek completes none.
pub fn vorbis_finish_frame(f: &mut Vorbis, len: i32, left: i32, right: i32) -> (r: i32)
    requires
        0 <= left <= 8192,
        0 <= right <= 8192,
        0 <= len <= 8192,
    ensures
        final(f).previous_length == len - right,
        old(f).previous_length == 0 ==> r == 0 && final(f).samples_output == old(f).samples_output,
        old(f).previous_length != 0 ==> r == (if len < right { len } else { right }) - left
            && final(f).samples_output == old(f).samples_output.wrapping_add(r as u32),
        *final(f) == (Vorbis { previous_length: final(f).previous_length, samples_output: final(f).samples_output, ..*old(f) }),
{
    let prev = f.previous_length;
    f.previous_length = len - right;
    if prev == 0 {
        return 0;
    }
    let right = if len < right { len } else { right };
    let done = right - left;
    f.samples_output = f.samples_output.wrapping_add(done as u32);
    done
}

/// Where a decoded packet's samples lie in the stream: settles which
/// samples of the frame are delivered (`left` on) and how far (`len`), and
/// moves the current sample position. On the first frame the position is
/// set so that the first delivered sample is sample 0, and the samples the
/// first block lacks are discarded later; when the packet ends a page
/// whose granule position is known, the position is taken from it (and a
/// short last frame of the stream is cut to it).
pub fn vorbis_packet_position(f: &mut Vorbis, n: i32, left_start: i32, right_start: i32, right_end: i32)
    -> (r: (i32, i32))
    requires
        64 <= n <= 8192,
        0 <= left_start <= right_start <= right_end <= n,
        0 <= old(f).discard_samples_deferred <= 8192,
    ensures
        0 <= final(f).discard_samples_deferred <= 8192,
        ({
            let o = *old(f);
            let n2 = n / 2;
            // the first frame, or samples still to discard
            let (first, discard, left) = if o.first_decode {
                (true, n - right_end, left_start as int)
            } else if o.discard_samples_deferred != 0 {
                if o.discard_samples_deferred >= right_start - left_start {
                    (false, o.discard_samples_deferred - (right_start - left_start), right_start as int)
                } else {
                    (false, 0int, left_start + o.discard_samples_deferred)
                }
            } else {
                (false, o.discard_samples_deferred as int, left_start as int)
            };
            let loc = if o.first_decode { (0 - n2) as u32 } else { o.current_loc };
            let valid = o.first_decode || o.current_loc_valid;
            let known = o.last_seg_which == o.end_seg_with_known_loc;
            let current_end = o.known_loc_for_packet.wrapping_sub((n - right_end) as u32);
            let truncated = known && valid && (o.page_flag & PAGEFLAG_LAST_PAGE) != 0
                && current_end < loc.wrapping_add((right_end - left) as u32);
            &&& final(f).first_decode == (o.first_decode && !first)
            &&& final(f).discard_samples_deferred == discard
            &&& r.1 == left
            &&& truncated ==> {
                let len0 = if current_end < loc { 0i32 } else { current_end.wrapping_sub(loc) as i32 };
                let len1 = len0.wrapping_add(left as i32);
                let len = if len1 > right_end { right_end } else { len1 };
                &&& r.0 == len
                &&& final(f).current_loc == loc.wrapping_add(len as u32)
                &&& final(f).current_loc_valid == valid
            }
            &&& !truncated ==> {
                let loc1 = if known { o.known_loc_for_packet.wrapping_sub((n2 - left) as u32) } else { loc };
                let valid1 = known || valid;
                &&& r.0 == right_end
                &&& final(f).current_loc_valid == valid1
                &&& final(f).current_loc == (if valid1 { loc1.wrapping_add((right_start - left) as u32) } else { loc1 })
            }
        }),
        *final(f) == (Vorbis { first_decode: final(f).first_decode, discard_samples_deferred: final(f).discard_samples_deferred,
            current_loc: final(f).current_loc, current_loc_valid: final(f).current_loc_valid, ..*old(f) }),
{
    let n2 = n / 2;
    let mut left = left_start;
    if f.first_decode {
        f.current_loc = (0i32 - n2) as u32;
        f.discard_samples_deferred = n - right_end;
        f.current_loc_valid = true;
        f.first_decode = false;
    } else if f.discard_samples_deferred != 0 {
        if f.discard_samples_deferred >= right_start - left {
            f.discard_samples_deferred = f.discard_samples_deferred - (right_start - left);
            left = right_start;
        } else {
            left = left + f.discard_samples_deferred;
            f.discard_samples_deferred = 0;
        }
    }
    if f.last_seg_which == f.end_seg_with_known_loc {
        if f.current_loc_valid && (f.page_flag & PAGEFLAG_LAST_PAGE) != 0 {
            let current_end: u32 = f.known_loc_for_packet.wrapping_sub((n - right_end) as u32);
            if current_end < f.current_loc.wrapping_add((right_end - left) as u32) {
                let mut len: i32 = if current_end < f.current_loc { 0 } else { current_end.wrapping_sub(f.current_loc) as i32 };
                len = len.wrapping_add(left);
                if len > right_end {
                    len = right_end;
                }
                f.current_loc = f.current_loc.wrapping_add(len as u32);
                return (len, left);
            }
        }
        f.current_loc = f.known_loc_for_packet.wrapping_sub((n2 - left) as u32);
        f.current_loc_valid = true;
    }
    if f.current_loc_valid {
        f.current_loc = f.current_loc.wrapping_add((right_start - left) as u32);
    }
    (right_end, left)
}

/// The last error recorded, which is cleared.
pub fn stb_vorbis_get_error(f: &mut Vorbis) -> (r: VorbisError)
    ensures
        r == old(f).error,
        *final(f) == (Vorbis { error: VorbisError::NoError, ..*old(f) }),
{
    let e = f.error;
    f.error = VorbisError::NoError;
    e
}

/// The stream's channel count and sample rate, and the most samples a
/// frame gives.
pub fn stb_vorbis_get_info(f: &Vorbis) -> (r: VorbisInfo)
    ensures
        r.channels == f.channels,
        r.sample_rate == f.sample_rate,
        r.max_frame_size == f.blocksize_1 / 2,
{
    let b = f.blocksize_1;
    assert(b >> 1 == b / 2) by (bit_vector);
    VorbisInfo { channels: f.channels, sample_rate: f.sample_rate, max_frame_size: b >> 1 }
}

/// The position, in samples from the beginning of the stream, of the next
/// sample a decode will give, when it is known; -1 otherwise.
pub fn stb_vorbis_get_sample_offset(f: &Vorbis) -> (r: i32)
    ensures
        r == (if f.current_loc_valid { f.current_loc as i32 } else { -1i32 }),
{
    if f.current_loc_valid {
        f.current_loc as i32
    } else {
        -1
    }
}

/// Tells the decoder that the next block of pushed data does not follow
/// the previous one: decoding will first resynchronise on a page.
pub fn stb_vorbis_flush_pushdata(f: &mut Vorbis)
    ensures
        *final(f) == (Vorbis { previous_length: 0, page_crc_tests: 0, discard_samples_deferred: 0,
            current_loc_valid: false, first_decode: false, samples_output: 0, channel_buffer_start: 0,
            channel_buffer_end: 0, ..*old(f) }),
{
    f.previous_length = 0;
    f.page_crc_tests = 0;
    f.discard_samples_deferred = 0;
    f.current_loc_valid = false;
    f.first_decode = false;
    f.samples_output = 0;
    f.channel_buffer_start = 0;
    f.channel_buffer_end = 0;
}

/// Goes back to the first audio page, as before the first frame. Refused in
/// push mode; on success the first frame is to be decoded next.
pub fn stb_vorbis_seek_start(f: &mut Vorbis) -> (r: bool)
    requires
        old(f).wf(),
    ensures
        final(f).wf(),
        r == !old(f).push_mode,
        !r ==> *final(f) == (Vorbis { error: VorbisError::InvalidApiMixing, ..*old(f) }),
        r ==> final(f).pos == (if (old(f).first_audio_page_offset as int) < old(f).data@.len() {
                old(f).first_audio_page_offset as int } else { old(f).data@.len() as int }),
        r ==> final(f).previous_length == 0 && final(f).first_decode && final(f).next_seg == -1,
        r ==> final(f).same_setup(&*old(f)),
{
    if f.push_mode {
        error(f, VorbisError::InvalidApiMixing);
        return false;
    }
    let offset = f.first_audio_page_offset;
    set_file_offset(f, offset);
    f.previous_length = 0;
    f.first_decode = true;
    f.next_seg = -1;
    true
}

/// Which channels stay silent once coupling is undone: a silent channel
/// coupled (in the first `k` coupling steps, in order) with one that is not
/// silent is decoded too.
pub open spec fn coupled_zero(chan: Seq<MappingChannel>, zero: Seq<bool>, k: int) -> Seq<bool>
    decreases k,
{
    if k <= 0 {
        zero
    } else {
        let z = coupled_zero(chan, zero, k - 1);
        let m = chan[k - 1].magnitude as int;
        let a = chan[k - 1].angle as int;
        if !z[m] || !z[a] { z.update(m, false).update(a, false) } else { z }
    }
}

/// The channels of submap `submap` under mapping `map`, in increasing
/// order, and for each whether it is silent (after coupling): the channels
/// whose residue that submap decodes together.
pub fn submap_channels(map: &Mapping, submap: u8, channels: usize, zero: &Vec<bool>) -> (r: (Vec<usize>, Vec<bool>))
    requires
        channels <= map.chan@.len(),
        channels <= zero@.len(),
    ensures
        r.0@.len() == r.1@.len(),
        forall|k: int| 0 <= k < r.0@.len() ==> (#[trigger] r.0@[k]) < channels
            && map.chan@[r.0@[k] as int].mux == submap && r.1@[k] == zero@[r.0@[k] as int],
        forall|k1: int, k2: int| 0 <= k1 < k2 < r.0@.len() ==> #[trigger] r.0@[k1] < #[trigger] r.0@[k2],
        forall|j: int| 0 <= j < channels && #[trigger] map.chan@[j].mux == submap
            ==> exists|k: int| 0 <= k < r.0@.len() && #[trigger] r.0@[k] == j,
{
    let mut chans: Vec<usize> = Vec::new();
    let mut skip: Vec<bool> = Vec::new();
    let mut j: usize = 0;
    while j < channels
        invariant
            j <= channels,
            channels <= map.chan@.len(),
            channels <= zero@.len(),
            chans@.len() == skip@.len(),
            forall|k: int| 0 <= k < chans@.len() ==> (#[trigger] chans@[k]) < j
                && map.chan@[chans@[k] as int].mux == submap && skip@[k] == zero@[chans@[k] as int],
            forall|k1: int, k2: int| 0 <= k1 < k2 < chans@.len() ==> #[trigger] chans@[k1] < #[trigger] chans@[k2],
            forall|i: int| 0 <= i < j && #[trigger] map.chan@[i].mux == submap
                ==> exists|k: int| 0 <= k < chans@.len() && #[trigger] chans@[k] == i,
        decreases channels - j,
    {
        if map.chan[j].mux == submap {
            let ghost before = chans@;
            chans.push(j);
            skip.push(zero[j]);
            proof {
                assert forall|i: int| 0 <= i < j + 1 && #[trigger] map.chan@[i].mux == submap
                    implies exists|k: int| 0 <= k < chans@.len() && #[trigger] chans@[k] == i by {
                    if i == j {
                        assert(chans@[before.len() as int] == i);
                    } else {
                        let k = choose|k: int| 0 <= k < before.len() && #[trigger] before[k] == i;
                        assert(chans@[k] == i);
                    }
                }
            }
        }
        j = j + 1;
    }
    let r = (chans, skip);
    proof {
        assert forall|i: int| 0 <= i < channels && #[trigger] map.chan@[i].mux == submap
            implies exists|k: int| 0 <= k < r.0@.len() && #[trigger] r.0@[k] == i by {
            let k = choose|k: int| 0 <= k < chans@.len() && #[trigger] chans@[k] == i;
            assert(r.0@[k] == i);
        }
    }
    r
}

/// Clears the silence of the channels coupled with a channel that is not
/// silent, step by step (see `coupled_zero`).
pub fn couple_zero_channels(map: &Mapping, zero: &mut Vec<bool>)
    requires
        mapping_ok(*map, old(zero)@.len() as int, 0x7fff_ffff, 0x7fff_ffff),
    ensures
        final(zero)@ == coupled_zero(map.chan@, old(zero)@, map.coupling_steps as int),
{
    let mut i: usize = 0;
    while i < map.coupling_steps as usize
        invariant
            i <= map.coupling_steps,
            mapping_ok(*map, old(zero)@.len() as int, 0x7fff_ffff, 0x7fff_ffff),
            zero@ == coupled_zero(map.chan@, old(zero)@, i as int),
            zero@.len() == old(zero)@.len(),
        decreases map.coupling_steps - i,
    {
        let m = map.chan[i].magnitude as usize;
        let a = map.chan[i].angle as usize;
        if !zero[m] || !zero[a] {
            zero.set(m, false);
            zero.set(a, false);
        }
        i = i + 1;
    }
}

/// The floor a channel uses under a mapping.
pub open spec fn channel_floor(map: Mapping, ch: int) -> int {
    map.submap_floor@[map.chan@[ch].mux as int] as int
}

/// Decodes the floors of the current packet's channels under mapping
/// `map`: for each channel the Y values of its floor after step 2 (see
/// `floor1_step2`), or nothing when the channel is silent in this packet.
pub fn decode_floors(f: &mut Vorbis, map: &Mapping) -> (r: Vec<Option<Vec<i16>>>)
    requires
        old(f).wf(),
        setup_ok(*old(f)),
        mapping_ok(*map, old(f).channels as int, old(f).floor_count as int, old(f).residue_count as int),
    ensures
        final(f).wf(),
        final(f).same_setup(&*old(f)),
        r@.len() == old(f).channels,
        forall|i: int| 0 <= i < r@.len() && (#[trigger] r@[i]) is Some
            ==> r@[i]->0@.len() == old(f).floor_config@[channel_floor(*map, i)].floor1.values,
        r@[0] is Some ==> 0 <= old(f).valid_bits && (1 <= bits_in_page(*old(f)) ==> page_bits(*old(f)) % 2 == 1),
        r@[0] is None ==> final(f).valid_bits == INVALID_BITS
            || (0 <= old(f).valid_bits && (1 <= bits_in_page(*old(f)) ==> page_bits(*old(f)) % 2 == 0)),
        old(f).valid_bits == INVALID_BITS ==> forall|i: int| 0 <= i < r@.len() ==> #[trigger] r@[i] is None,
        old(f).valid_bits != INVALID_BITS && final(f).valid_bits == INVALID_BITS ==> packet_ended(*final(f)),
{
    reveal(invalid_only_at_end);
    let ghost f0 = *f;
    let mut books: Vec<Codebook> = Vec::new();
    std::mem::swap(&mut books, &mut f.codebooks);
    let mut floors: Vec<Floor> = Vec::new();
    std::mem::swap(&mut floors, &mut f.floor_config);
    let ghost fs = *f;
    let mut out: Vec<Option<Vec<i16>>> = Vec::new();
    let mut i: usize = 0;
    while i < f.channels as usize
        invariant
            f.wf(),
            f.same_setup(&fs),
            books == f0.codebooks,
            floors == f0.floor_config,
            setup_ok(f0),
            f.channels == f0.channels,
            mapping_ok(*map, f0.channels as int, f0.floor_count as int, f0.residue_count as int),
            i <= f0.channels,
            out@.len() == i,
            forall|q: int| 0 <= q < i && (#[trigger] out@[q]) is Some
                ==> out@[q]->0@.len() == floors@[channel_floor(*map, q)].floor1.values,
            i == 0 ==> f.valid_bits == f0.valid_bits && page_bits(*f) == page_bits(f0)
                && bits_in_page(*f) == bits_in_page(f0),
            i > 0 ==> (out@[0] is Some ==> 0 <= f0.valid_bits && (1 <= bits_in_page(f0) ==> page_bits(f0) % 2 == 1)),
            i > 0 ==> (out@[0] is None ==> f.valid_bits == INVALID_BITS
                || (0 <= f0.valid_bits && (1 <= bits_in_page(f0) ==> page_bits(f0) % 2 == 0))),
            f0.valid_bits == INVALID_BITS ==> f.valid_bits == INVALID_BITS
                && forall|q: int| 0 <= q < i ==> #[trigger] out@[q] is None,
            invalid_only_at_end(f0, *f),
        decreases f0.channels - i,
    {
        reveal(invalid_only_at_end);
        let s = map.chan[i].mux as usize;
        let fl = map.submap_floor[s] as usize;
        let g = &floors[fl].floor1;
        proof {
            assert(floor1_ok(floors@[fl as int].floor1, f0.codebook_count as int));
        }
        match read_floor1_values(f, g, &books) {
            None => { out.push(None); },
            Some(raw) => {
                let range = floor1_range(g.floor1_multiplier);
                let y = floor1_step2(g, range, &raw);
                out.push(Some(y));
            },
        }
        proof {
            assert(out@[i as int] is Some ==> out@[i as int]->0@.len() == floors@[channel_floor(*map, i as int)].floor1.values);
        }
        i = i + 1;
    }
    std::mem::swap(&mut books, &mut f.codebooks);
    std::mem::swap(&mut floors, &mut f.floor_config);
    out
}

} // verus!
