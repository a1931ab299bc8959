use vstd::prelude::*;
use crate::decode::{peek_decode_initial, stb_vorbis_seek_start, header_in_page, header_window, header_bytes};
use crate::setup::setup_ok;
use crate::ogg::{flush_packet, lemma_last_short_bounds, maybe_start_packet, start_page};
use crate::seek::{length_reported, SAMPLE_UNKNOWN, get_seek_page_info, go_to_page_before, stb_vorbis_stream_length_in_samples, vorbis_find_page};
use crate::types::{ProbedPage, VorbisError};
use crate::vorbis::{Vorbis, error, set_file_offset, skip, stb_vorbis_get_file_offset, PAGEFLAG_CONTINUED_PACKET};

verus! {

/// Where a search for the page that holds a sample stands: the pages known
/// to end before the target (`left`) and after it (`right`), the page
/// probed last, the target sample and the number of probes made.
#[derive(Copy, Clone, PartialEq, Eq, Debug, Structural)]
pub struct SeekSearch {
    pub left: ProbedPage,
    pub right: ProbedPage,
    pub mid: ProbedPage,
    pub target: u32,
    pub probe: u32,
}

/// What a coarse seek asks for next.
#[derive(Copy, Clone, PartialEq, Eq, Debug, Structural)]
pub enum SeekStep {
    /// The search needs the byte offset of its next probe, which the first
    /// two probes of a long range interpolate from the pages found so far:
    /// call `seek_probe_at` with it.
    Probe(SeekSearch),
    /// The target lies in the first frames: the decoder was rewound to the
    /// first audio page; the first frame is to be decoded next.
    Rewound,
    /// The decoder stands at the start of the packet from which decoding
    /// reaches the target; that frame is to be decoded next.
    Found,
    /// The seek failed and the error is set; `true` when the decoder was
    /// rewound to the first audio page (its first frame is then to be
    /// decoded next).
    Failed(bool),
}

/// A search state that can go on: a range still to search, a target
/// after the left page's last sample.
pub open spec fn search_ok(s: SeekSearch) -> bool {
    &&& s.left.page_end < s.right.page_start
    &&& s.left.page_end as int + 65536 < s.right.page_start
    &&& s.probe < 2
}

/// The decoder was rewound to the first audio page.
pub open spec fn rewound(f0: Vorbis, f: Vorbis) -> bool {
    &&& f.pos == (if (f0.first_audio_page_offset as int) < f0.data@.len() { f0.first_audio_page_offset as int }
        else { f0.data@.len() as int })
    &&& f.previous_length == 0
    &&& f.first_decode
    &&& f.next_seg == -1
}

/// Gives up: rewinds to the first audio page and records the failure.
fn seek_failed(f: &mut Vorbis) -> (r: SeekStep)
    requires
        old(f).wf(),
        !old(f).push_mode,
    ensures
        final(f).wf(),
        final(f).same_setup(&*old(f)),
        r == SeekStep::Failed(true),
        rewound(*old(f), *final(f)),
        final(f).error == VorbisError::SeekFailed,
{
    stb_vorbis_seek_start(f);
    error(f, VorbisError::SeekFailed);
    SeekStep::Failed(true)
}

/// Finds the start of the packet that holds the page's first known
/// sample: the last packet that ends on the page at `page_start`, going
/// back over the pages that continue it; then stands at its first segment,
/// ready to decode it.
fn seek_to_packet(f: &mut Vorbis, page_start: u32) -> (r: SeekStep)
    requires
        old(f).wf(),
        !old(f).push_mode,
    ensures
        final(f).wf(),
        final(f).same_setup(&*old(f)),
        r is Found || r is Failed,
        r == SeekStep::Failed(false) ==> final(f).error == VorbisError::SeekFailed,
        r == SeekStep::Failed(true) ==> rewound(*old(f), *final(f)) && final(f).error == VorbisError::SeekFailed,
        r is Found ==> {
            &&& 0 <= final(f).next_seg < 255
            &&& !final(f).current_loc_valid
            &&& !final(f).last_seg
            &&& final(f).valid_bits == 0
            &&& final(f).packet_bytes == 0
            &&& final(f).bytes_in_seg == 0
            &&& final(f).previous_length == 0
        },
{
    let ghost f0 = *f;
    set_file_offset(f, page_start);
    if !start_page(f) {
        error(f, VorbisError::SeekFailed);
        return SeekStep::Failed(false);
    }
    let mut end_pos = f.end_seg_with_known_loc;
    if end_pos < 0 {
        return seek_failed(f);
    }
    proof {
        lemma_last_short_bounds(f.segments@, f.segment_count as int);
    }
    let mut start: u32 = page_start;
    let mut seg: i32 = 0;
    loop
        invariant
            f.wf(),
            f.same_setup(&f0),
            !f.push_mode,
            f0 == *old(f),
            0 <= end_pos < 255,
        ensures
            f.wf(),
            f.same_setup(&f0),
            0 <= seg < 255,
        decreases start,
    {
        let mut i: i32 = end_pos;
        while i > 0 && f.segments[(i - 1) as usize] == 255
            invariant
                0 <= i <= end_pos < 255,
                f.segments@.len() == 255,
            decreases i,
        {
            i = i - 1;
        }
        if i > 0 || f.page_flag & PAGEFLAG_CONTINUED_PACKET == 0 {
            seg = i;
            break;
        }
        if !go_to_page_before(f, start) {
            return seek_failed(f);
        }
        start = stb_vorbis_get_file_offset(f);
        if !start_page(f) {
            return seek_failed(f);
        }
        end_pos = f.segment_count - 1;
        if end_pos < 0 {
            return seek_failed(f);
        }
    }
    f.current_loc_valid = false;
    f.last_seg = false;
    f.valid_bits = 0;
    f.packet_bytes = 0;
    f.bytes_in_seg = 0;
    f.previous_length = 0;
    f.next_seg = seg;
    let mut k: i32 = 0;
    while k < seg
        invariant
            f.wf(),
            f.same_setup(&f0),
            0 <= k <= seg < 255,
            f.next_seg == seg,
            !f.current_loc_valid,
            !f.last_seg,
            f.valid_bits == 0,
            f.packet_bytes == 0,
            f.bytes_in_seg == 0,
            f.previous_length == 0,
        decreases seg - k,
    {
        let n = f.segments[k as usize] as i32;
        skip(f, n);
        k = k + 1;
    }
    SeekStep::Found
}

/// The decoder stands at the start of a packet, with nothing of it read.
pub open spec fn at_packet_start(f: Vorbis) -> bool {
    &&& 0 <= f.next_seg < 255
    &&& !f.current_loc_valid
    &&& !f.last_seg
    &&& f.valid_bits == 0
    &&& f.packet_bytes == 0
    &&& f.bytes_in_seg == 0
    &&& f.previous_length == 0
}

/// Searches between the pages of `s0` for the page after which the target
/// sample lies, probing by halves, or at the offset an interpolation gave
/// (`given`, taken for the first probe only, kept between the end of the
/// left page and 64 KiB before the right page); once the range is down to
/// 64 KiB, page by page. Then stands at the start of the packet to decode.
fn seek_search(f: &mut Vorbis, s0: SeekSearch, given: Option<u32>) -> (r: SeekStep)
    requires
        old(f).wf(),
        !old(f).push_mode,
    ensures
        final(f).wf(),
        final(f).same_setup(&*old(f)),
        !(r is Rewound),
        r matches SeekStep::Probe(s) ==> search_ok(s) && s.target == s0.target,
        r == SeekStep::Failed(false) ==> final(f).error == VorbisError::SeekFailed,
        r == SeekStep::Failed(true) ==> rewound(*old(f), *final(f)) && final(f).error == VorbisError::SeekFailed,
        r is Found ==> at_packet_start(*final(f)),
{
    let ghost f0 = *f;
    let ghost d = f.data@;
    let mut s = s0;
    let mut given = given;
    loop
        invariant
            f.wf(),
            f.same_setup(&f0),
            f0 == *old(f),
            d == f.data@,
            !f.push_mode,
            s.target == s0.target,
        decreases (if s.left.page_end < s.right.page_start { s.right.page_start - s.left.page_end } else { 0 }),
    {
        let o = given;
        given = None;
        if s.left.page_end == s.right.page_start {
            break;
        }
        if s.left.page_end > s.right.page_start {
            return seek_failed(f);
        }
        let delta = s.right.page_start - s.left.page_end;
        if delta <= 65536 {
            set_file_offset(f, s.left.page_end);
        } else {
            if s.probe < 2 {
                match o {
                    None => {
                        return SeekStep::Probe(s);
                    },
                    Some(x) => {
                        let hi = s.right.page_start - 65536;
                        let at = if x < s.left.page_end { s.left.page_end } else if x > hi { hi } else { x };
                        set_file_offset(f, at);
                    },
                }
            } else {
                set_file_offset(f, s.left.page_end + delta / 2 - 32768);
            }
            if vorbis_find_page(f).is_none() {
                return seek_failed(f);
            }
        }
        let mut mid = s.mid;
        loop
            invariant
                f.wf(),
                f.same_setup(&f0),
                f0 == *old(f),
                d == f.data@,
                !f.push_mode,
                s.left.page_end < s.right.page_start,
                f.pos >= s.left.page_end || f.pos == d.len(),
            ensures
                f.wf(),
                f.same_setup(&f0),
                mid.page_start >= s.left.page_end,
                mid.page_end >= mid.page_start + 27,
            decreases d.len() - f.pos,
        {
            match get_seek_page_info(f) {
                None => {
                    return seek_failed(f);
                },
                Some(m) => {
                    mid = m;
                },
            }
            if mid.last_decoded_sample != SAMPLE_UNKNOWN {
                break;
            }
            set_file_offset(f, mid.page_end);
            if mid.page_start >= s.right.page_start {
                return seek_failed(f);
            }
        }
        s.mid = mid;
        if mid.page_start == s.right.page_start {
            break;
        }
        if mid.page_start > s.right.page_start {
            return seek_failed(f);
        }
        if s.target < mid.last_decoded_sample {
            s.right = mid;
        } else {
            s.left = mid;
        }
        s.probe = s.probe.wrapping_add(1);
    }
    seek_to_packet(f, s.left.page_start)
}

/// How many samples a stream of known length has, 0 when it is unknown.
pub open spec fn known_length(f: Vorbis) -> int {
    if f.total_samples == SAMPLE_UNKNOWN { 0 } else { f.total_samples as int }
}

/// Where the search for `sample` starts: `sample` less a quarter of the
/// difference of the block sizes (the most by which a page's granule
/// position and the first sample of the next packet can differ), or 0.
pub open spec fn seek_target(f: Vorbis, sample: u32) -> u32 {
    let padding = ((f.blocksize_1 - f.blocksize_0) / 4) as u32;
    if sample < padding { 0 } else { (sample - padding) as u32 }
}

/// The page-level part of seeking to sample `sample_number` (the stream's
/// length is found first): refuses a stream of unknown length
/// (`SeekWithoutLength`) and a sample past the end (`SeekInvalid`), rewinds
/// when the sample lies before the end of the first page that records one,
/// and otherwise searches for the page after which the sample lies and
/// stands at the start of the packet that decoding continues from. Where
/// the search needs an interpolated probe it stops and asks for it
/// (`SeekStep::Probe`); `seek_probe_at` goes on.
pub fn seek_to_sample_coarse(f: &mut Vorbis, sample_number: u32) -> (r: SeekStep)
    requires
        old(f).wf(),
        !old(f).push_mode,
        old(f).blocksize_0 <= old(f).blocksize_1 <= 8192,
    ensures
        final(f).wf(),
        final(f).same_setup(&*old(f)),
        length_reported(*old(f)) == 0 ==> r == SeekStep::Failed(false)
            && final(f).error == VorbisError::SeekWithoutLength,
        length_reported(*old(f)) != 0 && sample_number > length_reported(*old(f))
            ==> r == SeekStep::Failed(false) && final(f).error == VorbisError::SeekInvalid,
        !(r == SeekStep::Failed(false) && final(f).error != VorbisError::SeekFailed)
            ==> 0 < length_reported(*old(f)) && sample_number <= length_reported(*old(f)),
        0 < length_reported(*old(f)) && sample_number <= length_reported(*old(f))
            && (old(f).total_samples == 0 || old(f).p_last.last_decoded_sample != SAMPLE_UNKNOWN)
            && old(f).p_first.last_decoded_sample != SAMPLE_UNKNOWN
            && seek_target(*old(f), sample_number) <= old(f).p_first.last_decoded_sample
            ==> r is Rewound,
        r == SeekStep::Failed(false) ==> final(f).error == VorbisError::SeekWithoutLength
            || final(f).error == VorbisError::SeekInvalid || final(f).error == VorbisError::SeekFailed,
        r == SeekStep::Failed(true) ==> rewound(*old(f), *final(f)) && final(f).error == VorbisError::SeekFailed,
        r is Rewound ==> rewound(*old(f), *final(f)),
        r matches SeekStep::Probe(s) ==> search_ok(s) && s.target == seek_target(*old(f), sample_number),
        r is Found ==> at_packet_start(*final(f)),
{
    let ghost f0 = *f;
    let first_page = f.p_first;
    let length = stb_vorbis_stream_length_in_samples(f);
    if length == 0 {
        error(f, VorbisError::SeekWithoutLength);
        return SeekStep::Failed(false);
    }
    if sample_number > length {
        error(f, VorbisError::SeekInvalid);
        return SeekStep::Failed(false);
    }
    let diff: usize = f.blocksize_1 - f.blocksize_0;
    proof {
        assert(diff >> 2 == diff / 4) by (bit_vector);
    }
    let padding = (diff >> 2) as u32;
    let target = if sample_number < padding { 0 } else { sample_number - padding };
    let ghost d = f.data@;
    let right = f.p_last;
    let mut left = first_page;
    while left.last_decoded_sample == SAMPLE_UNKNOWN
        invariant
            f.wf(),
            f.same_setup(&f0),
            f0 == *old(f),
            d == f.data@,
            !f.push_mode,
            f0.total_samples != 0 ==> 0 < known_length(f0) && sample_number <= known_length(f0),
            0 < length_reported(f0) && sample_number <= length_reported(f0),
            first_page == f0.p_first,
            first_page.last_decoded_sample != SAMPLE_UNKNOWN ==> left == first_page,
        decreases (if (left.page_end as int) <= d.len() { d.len() + 1 - left.page_end } else { 0 }),
    {
        set_file_offset(f, left.page_end);
        match get_seek_page_info(f) {
            None => {
                return seek_failed(f);
            },
            Some(p) => {
                left = p;
            },
        }
    }
    if right.last_decoded_sample == SAMPLE_UNKNOWN {
        return seek_failed(f);
    }
    if target <= left.last_decoded_sample {
        stb_vorbis_seek_start(f);
        return SeekStep::Rewound;
    }
    let s = SeekSearch { left, right, mid: ProbedPage { page_start: 0, page_end: 0, last_decoded_sample: 0 },
        target, probe: 0 };
    seek_search(f, s, None)
}

/// Goes on with a coarse seek that asked for a probe (`SeekStep::Probe(s)`),
/// probing at `offset` (kept between the end of the left page and 64 KiB
/// before the right page).
pub fn seek_probe_at(f: &mut Vorbis, s: SeekSearch, offset: u32) -> (r: SeekStep)
    requires
        old(f).wf(),
        !old(f).push_mode,
    ensures
        final(f).wf(),
        final(f).same_setup(&*old(f)),
        !(r is Rewound),
        r matches SeekStep::Probe(t) ==> search_ok(t) && t.target == s.target,
        r == SeekStep::Failed(false) ==> final(f).error == VorbisError::SeekFailed,
        r == SeekStep::Failed(true) ==> rewound(*old(f), *final(f)) && final(f).error == VorbisError::SeekFailed,
        r is Found ==> at_packet_start(*final(f)),
{
    seek_search(f, s, Some(offset))
}

/// What the frame-by-frame part of a seek asks for next.
#[derive(Copy, Clone, PartialEq, Eq, Debug, Structural)]
pub enum FrameSeek {
    /// The next frame decoded holds the target sample.
    Done,
    /// The frame after the next one may hold the target: decode the next
    /// frame (as the first frame after a seek), then step again.
    DecodeFrame,
    /// The next frame ends too early: it was skipped; step again.
    Skipped,
    /// The seek failed (`SeekFailed` is set).
    Failed,
}

/// What a step of the frame-by-frame search decides from the header of
/// the next packet of `f`: its frame gives `right_start - left_start`
/// samples of the window `header_window`; with the current position and
/// the target taken as 32-bit signed values, the frame holds the target,
/// or the next frame may (within the longest frame), or it is skipped.
pub open spec fn frame_choice(f: Vorbis, sample_number: u32) -> FrameSeek {
    let w = header_window(f);
    let frame = w.2 - w.0;
    let loc = (f.current_loc as i32) as int;
    let target = (sample_number as i32) as int;
    let max_frame = (3 * f.blocksize_1 - f.blocksize_0) / 4;
    if loc + frame > target {
        FrameSeek::Done
    } else if loc + frame + max_frame > target {
        FrameSeek::DecodeFrame
    } else {
        FrameSeek::Skipped
    }
}

/// One step of the frame-by-frame search that follows a coarse seek to
/// `sample_number`: with the current sample position known and not past
/// the target, reads the header of the next packet (leaving it to be
/// decoded) and compares the samples its frame gives, `right_start -
/// left_start`, with the distance to the target (positions taken as 32-bit
/// signed values): the frame holds the target; or the next frame may, and
/// this one is to be decoded; or it is skipped, its samples counted.
pub fn seek_frame_step(f: &mut Vorbis, sample_number: u32) -> (r: FrameSeek)
    requires
        old(f).wf(),
        setup_ok(*old(f)),
    ensures
        final(f).wf(),
        final(f).same_setup(&*old(f)),
        !old(f).current_loc_valid || old(f).current_loc > sample_number ==> r == FrameSeek::Failed
            && *final(f) == (Vorbis { error: VorbisError::SeekFailed, ..*old(f) }),
        old(f).current_loc_valid && old(f).current_loc == sample_number ==> r == FrameSeek::Done && *final(f) == *old(f),
        r == FrameSeek::Failed ==> final(f).error == VorbisError::SeekFailed,
        r != FrameSeek::Failed ==> old(f).current_loc_valid && old(f).current_loc <= sample_number,
        old(f).current_loc_valid && old(f).current_loc < sample_number && header_in_page(*old(f)) ==> {
            &&& r != FrameSeek::Failed ==> r == frame_choice(*old(f), sample_number)
            &&& r == FrameSeek::Failed ==> final(f).pos < header_bytes(*old(f))
                || final(f).bytes_in_seg + header_bytes(*old(f)) > 255
            &&& r == FrameSeek::Skipped ==> final(f).current_loc as int
                == (old(f).current_loc as int + header_window(*old(f)).2 - header_window(*old(f)).0) % 0x1_0000_0000
        },
        r == FrameSeek::Skipped ==> final(f).current_loc_valid,
        r == FrameSeek::Done || r == FrameSeek::DecodeFrame ==> final(f).current_loc == old(f).current_loc
            && final(f).current_loc_valid == old(f).current_loc_valid,
{
    if !f.current_loc_valid || f.current_loc > sample_number {
        error(f, VorbisError::SeekFailed);
        return FrameSeek::Failed;
    }
    if f.current_loc == sample_number {
        return FrameSeek::Done;
    }
    let cur = f.current_loc;
    match peek_decode_initial(f) {
        None => {
            error(f, VorbisError::SeekFailed);
            FrameSeek::Failed
        },
        Some((_mode, left_start, _left_end, right_start, _right_end)) => {
            let frame_samples = right_start as i64 - left_start as i64;
            let max_frame = ((3 * f.blocksize_1 - f.blocksize_0) / 4) as i64;
            let loc = (cur as i32) as i64;
            let target = (sample_number as i32) as i64;
            if loc + frame_samples > target {
                FrameSeek::Done
            } else if loc + frame_samples + max_frame > target {
                FrameSeek::DecodeFrame
            } else {
                f.current_loc = cur.wrapping_add(frame_samples as u32);
                f.previous_length = 0;
                maybe_start_packet(f);
                flush_packet(f);
                FrameSeek::Skipped
            }
        },
    }
}

} // verus!
