use vstd::prelude::*;
use crate::crc::{crc32_update, crc32_of, lemma_crc32_push, lemma_crc32_chunks};
use crate::seek::{page_length, page_image, page_segs_total, page_valid, lemma_segs_total_nonneg};
use crate::ogg::segment_run;
use crate::types::{CRCscan, VorbisError};
use crate::vorbis::{Vorbis, error, byte_at, le32_at, PAGEFLAG_CONTINUED_PACKET, STB_PUSHDATA_CRC_COUNT};

verus! {

/// The segment of the page's table, from `k` on, that ends the packet
/// running there: the first shorter than 255, or `count` when the packet
/// runs past the page.
pub open spec fn run_end(segs: Seq<u8>, k: int, count: int) -> int
    decreases count - k,
{
    if k < 0 || k >= count {
        count
    } else if segs[k] < 255 {
        k
    } else {
        run_end(segs, k + 1, count)
    }
}

/// The segment of the table of `n` lengths at `q` of `d`, from `k` on,
/// that ends the packet running there: the first shorter than 255, or `n`.
pub open spec fn table_run_end(d: Seq<u8>, q: int, n: int, k: int) -> int
    decreases n - k,
{
    if k < 0 || k >= n {
        n
    } else if d[q + k] < 255 {
        k
    } else {
        table_run_end(d, q, n, k + 1)
    }
}

/// The bytes of the packet running from segment `k` of that table, up to
/// the segment that ends it (or the end of the table).
pub open spec fn table_run_sum(d: Seq<u8>, q: int, n: int, k: int) -> int
    decreases n - k,
{
    if k < 0 || k >= n {
        0
    } else if d[q + k] < 255 {
        d[q + k] as int
    } else {
        255 + table_run_sum(d, q, n, k + 1)
    }
}

/// The pages of `d` from `p` on hold the rest of a packet: each has a
/// whole header (version 0, continuing the packet, or on the first page
/// when a packet was read before, not continuing one), its segment table
/// and the packet's bytes in the data, until a page where the packet ends
/// (at its last segment when `end_page`).
pub open spec fn pages_hold(d: Seq<u8>, p: int, first: bool, prev_nonzero: bool, end_page: bool) -> bool
    decreases d.len() - p,
{
    if p < 0 || p + 26 >= d.len() {
        false
    } else {
        let n = d[p + 26] as int;
        let q = p + 27;
        let k = table_run_end(d, q, n, 0);
        let e = q + n + table_run_sum(d, q, n, 0);
        &&& capture_at(d, p)
        &&& d[p + 4] == 0
        &&& (if first { prev_nonzero ==> d[p + 5] & 1 == 0 } else { d[p + 5] & 1 != 0 })
        &&& e <= d.len()
        &&& !(end_page && k + 1 < n)
        &&& (k < n || (p < e && pages_hold(d, e, false, prev_nonzero, end_page)))
    }
}

/// The rest of the current packet of `f` lies whole in its data: in this
/// page when it ends here, else in the pages that follow (see
/// `pages_hold`); with `end_page`, it also ends its page.
pub open spec fn whole_packet_present(f: Vorbis, end_page: bool) -> bool {
    let segs = f.segments@;
    let c = f.segment_count as int;
    let k = f.next_seg as int;
    let e = run_end(segs, k, c);
    let q = f.pos + segment_run(segs, k, c);
    if k == -1 {
        pages_hold(f.data@, f.pos as int, true, f.previous_length != 0, end_page)
    } else if k > c {
        true
    } else if end_page && e < c - 1 {
        false
    } else if q > f.data@.len() {
        false
    } else if e < c {
        true
    } else {
        pages_hold(f.data@, q, false, f.previous_length != 0, end_page)
    }
}

/// The bytes of a packet's run of segments are not negative.
proof fn lemma_table_run_sum_nonneg(d: Seq<u8>, q: int, n: int, k: int)
    ensures
        table_run_sum(d, q, n, k) >= 0,
    decreases n - k,
{
    if 0 <= k < n && d[q + k] >= 255 {
        lemma_table_run_sum_nonneg(d, q, n, k + 1);
    }
}

/// Checks, without reading anything, that the rest of the current packet
/// lies within the data at hand: its remaining segments on this page and,
/// when it continues, the following pages (each with a valid header and the
/// continued-packet flag). With `end_page`, the packet must also end its
/// page. Fails with NeedMoreData when the data stops short, InvalidStream
/// when a page header is wrong.
#[verifier::loop_isolation(false)]
#[verifier::spinoff_prover]
#[verifier::rlimit(100)]
pub fn is_whole_packet_present(f: &mut Vorbis, end_page: bool) -> (r: bool)
    requires
        old(f).wf(),
    ensures
        final(f).wf(),
        *final(f) == (Vorbis { error: final(f).error, ..*old(f) }),
        r ==> final(f).error == old(f).error,
        !r ==> final(f).error == VorbisError::NeedMoreData || final(f).error == VorbisError::InvalidStream,
        ({
            let segs = old(f).segments@;
            let c = old(f).segment_count as int;
            let k = old(f).next_seg as int;
            let e = run_end(segs, k, c);
            let q = old(f).pos + segment_run(segs, k, c);
            &&& 0 <= k <= c && end_page && e < c - 1 ==> !r && final(f).error == VorbisError::InvalidStream
            &&& 0 <= k <= c && !(end_page && e < c - 1) && q > old(f).data@.len()
                ==> !r && final(f).error == VorbisError::NeedMoreData
            &&& 0 <= k <= c && !(end_page && e < c - 1) && q <= old(f).data@.len() && e < c ==> r
        }),
        old(f).next_seg == -1 && old(f).pos + 26 >= old(f).data@.len()
            ==> !r && final(f).error == VorbisError::NeedMoreData,
        old(f).next_seg == -1 && old(f).pos + 26 < old(f).data@.len()
            && (!capture_at(old(f).data@, old(f).pos as int) || old(f).data@[old(f).pos + 4] != 0)
            ==> !r && final(f).error == VorbisError::InvalidStream,
        r == whole_packet_present(*old(f), end_page),
{
    let len = f.data.len();
    let mut s: i32 = f.next_seg;
    let mut first = true;
    let mut p: usize = f.pos;
    let ghost s0 = s;
    let ghost segs = f.segments@;
    let ghost c = f.segment_count as int;
    let ghost e = run_end(segs, s0 as int, c);
    let ghost q = f.pos + segment_run(segs, s0 as int, c);
    if s != -1 {
        while s < f.segment_count
            invariant
                *f == *old(f),
                0 <= s0 <= s,
                s <= f.segment_count || s == s0,
                p <= f.pos + 255 * (s - s0),
                p + segment_run(f.segments@, s as int, f.segment_count as int)
                    == f.pos + segment_run(f.segments@, s0 as int, f.segment_count as int),
                run_end(f.segments@, s as int, f.segment_count as int)
                    == run_end(f.segments@, s0 as int, f.segment_count as int),
            decreases f.segment_count - s,
        {
            p = p + f.segments[s as usize] as usize;
            if f.segments[s as usize] < 255 {
                break;
            }
            s = s + 1;
        }
        assert(s0 <= c ==> s == e && p == q);
        if end_page && s < f.segment_count - 1 {
            return error(f, VorbisError::InvalidStream);
        }
        if s == f.segment_count {
            s = -1;
        }
        if p > len {
            return error(f, VorbisError::NeedMoreData);
        }
        first = false;
        if s != -1 {
            assert(!(0 <= s0 <= c) || e < c);
            return true;
        }
        assert(0 <= s0 <= c && e == c && q <= len && !(end_page && e < c - 1));
    }
    while s == -1
        invariant
            *f == *old(f),
            f.wf(),
            len == f.data@.len(),
            p <= len,
            segs == f.segments@,
            c == f.segment_count,
            s0 == f.next_seg,
            s0 != -1 ==> 0 <= s0 <= c && e == c && q <= len && !(end_page && e < c - 1),
            first ==> s0 == -1 && p == f.pos && s == -1,
            !first && s0 == -1 ==> f.pos + 26 < len && capture_at(f.data@, f.pos as int) && f.data@[f.pos + 4] == 0,
            s == -1 ==> whole_packet_present(*old(f), end_page)
                == pages_hold(f.data@, p as int, first, f.previous_length != 0, end_page),
            s != -1 ==> whole_packet_present(*old(f), end_page),
        decreases len - p,
    {
        let ghost pp = p as int;
        let ghost fst = first;
        if p + 26 >= len {
            assert(*f == *old(f));
            let r = error(f, VorbisError::NeedMoreData);
            assert(*f == (Vorbis { error: VorbisError::NeedMoreData, ..*old(f) }));
            assert(f.error == VorbisError::NeedMoreData);
            return r;
        }
        if f.data[p] != 0x4f || f.data[p + 1] != 0x67 || f.data[p + 2] != 0x67 || f.data[p + 3] != 0x53 {
            return error(f, VorbisError::InvalidStream);
        }
        if f.data[p + 4] != 0 {
            return error(f, VorbisError::InvalidStream);
        }
        if first {
            if f.previous_length != 0 {
                if (f.data[p + 5] & PAGEFLAG_CONTINUED_PACKET) != 0 {
                    return error(f, VorbisError::InvalidStream);
                }
            }
        } else {
            if (f.data[p + 5] & PAGEFLAG_CONTINUED_PACKET) == 0 {
                return error(f, VorbisError::InvalidStream);
            }
        }
        let n = f.data[p + 26] as usize;
        let q = p + 27;
        p = q + n;
        proof {
            lemma_table_run_sum_nonneg(f.data@, q as int, n as int, 0);
        }
        if p > len {
            return error(f, VorbisError::NeedMoreData);
        }
        let mut k: usize = 0;
        while k < n
            invariant
                *f == *old(f),
                q + n <= len,
                k <= n,
                q + n <= p <= q + n + 255 * k,
                p + table_run_sum(f.data@, q as int, n as int, k as int)
                    == q + n + table_run_sum(f.data@, q as int, n as int, 0),
                table_run_end(f.data@, q as int, n as int, k as int) == table_run_end(f.data@, q as int, n as int, 0),
            decreases n - k,
        {
            p = p + f.data[q + k] as usize;
            if f.data[q + k] < 255 {
                break;
            }
            k = k + 1;
        }
        proof {
            assert(k == table_run_end(f.data@, q as int, n as int, 0));
            assert(p == q + n + table_run_sum(f.data@, q as int, n as int, 0));
            assert(n == f.data@[pp + 26] && q == pp + 27);
        }
        if end_page && k + 1 < n {
            return error(f, VorbisError::InvalidStream);
        }
        s = if k == n { -1 } else { k as i32 };
        if p > len {
            return error(f, VorbisError::NeedMoreData);
        }
        proof {
            if k < n {
                assert(pages_hold(f.data@, pp, fst, f.previous_length != 0, end_page));
            }
        }
        first = false;
    }
    true
}

/// The little-endian 32-bit value of `data` at `i`.
fn le32_in(data: &Vec<u8>, i: usize) -> (r: u32)
    requires
        i + 4 <= data@.len(),
    ensures
        r == data@[i as int] as int + data@[i + 1] as int * 256 + data@[i + 2] as int * 65536
            + data@[i + 3] as int * 16777216,
{
    let _len = data.len();
    let b0 = data[i] as u32;
    let b1 = data[i + 1] as u32;
    let b2 = data[i + 2] as u32;
    let b3 = data[i + 3] as u32;
    assert(b0 <= 255 && b1 <= 255 && b2 <= 255 && b3 <= 255);
    b0 + b1 * 256 + b2 * 65536 + b3 * 16777216
}

/// The bytes of `d` at `i` are the capture pattern of a page header.
pub open spec fn capture_at(d: Seq<u8>, i: int) -> bool {
    d[i] == 0x4f && d[i + 1] == 0x67 && d[i + 2] == 0x67 && d[i + 3] == 0x53
}

/// A page header starts at `i` in the block `d`, but its fixed part or its
/// segment table runs into the last three bytes of the block.
pub open spec fn header_cut_at(d: Seq<u8>, i: int) -> bool {
    &&& 0 <= i < d.len() - 3
    &&& capture_at(d, i)
    &&& (i + 26 >= d.len() - 3 || i + 27 + d[i + 26] >= d.len() - 3)
}

/// A scan started on the page header at `bytes_done - 26` of the block
/// `d`: it aims at the CRC the header records.
pub open spec fn scan_started_in(d: Seq<u8>, s: CRCscan) -> bool {
    &&& 26 <= s.bytes_done < d.len() - 3
    &&& capture_at(d, s.bytes_done - 26)
    &&& s.goal_crc == d[s.bytes_done - 4] as int + d[s.bytes_done - 3] as int * 256
        + d[s.bytes_done - 2] as int * 65536 + d[s.bytes_done - 1] as int * 16777216
}

/// The scan started on the page header at `p` of the block `d`: it aims at
/// the CRC the header records, has fed the CRC the first 26 bytes of the
/// page (its CRC field as zeros), has the rest of the page to feed, from
/// `p + 26` on, and records the page's granule position (unknown when its
/// last segment is 255 long).
pub open spec fn scan_of_page(d: Seq<u8>, p: int) -> CRCscan {
    CRCscan {
        goal_crc: le32_at(d, p + 22),
        bytes_left: (page_length(d, p) - 26) as i32,
        crc_so_far: crc32_of(0, page_image(d, p).subrange(0, 26)),
        bytes_done: (p + 26) as i32,
        sample_loc: if byte_at(d, p + 26 + byte_at(d, p + 26)) == 255 { 0xffff_ffffu32 } else { le32_at(d, p + 6) },
    }
}

/// The first capture pattern of the block `d` is at `p`, and the page
/// header there (with its segment table) ends before the last three bytes
/// of the block.
pub open spec fn first_header_at(d: Seq<u8>, p: int) -> bool {
    &&& 0 <= p
    &&& p + 27 + d[p + 26] < d.len() - 3
    &&& capture_at(d, p)
    &&& forall|j: int| 0 <= j < p ==> !#[trigger] capture_at(d, j)
}

/// Starts a scan for each page header found in a block of pushed data
/// (while there is room for scans), stopping before a header the block
/// holds only in part; gives how far the block was searched.
fn start_page_scans(f: &mut Vorbis, data: &Vec<u8>) -> (r: usize)
    requires
        old(f).wf(),
        0 <= old(f).page_crc_tests < STB_PUSHDATA_CRC_COUNT,
        4 <= data@.len() < 0x7fff_0000,
        forall|k: int| 0 <= k < old(f).page_crc_tests ==> (#[trigger] old(f).scan@[k]).bytes_left > 0
            && old(f).scan@[k].bytes_done == 0,
    ensures
        final(f).wf(),
        final(f).same_setup(&*old(f)),
        *final(f) == (Vorbis { scan: final(f).scan, page_crc_tests: final(f).page_crc_tests, ..*old(f) }),
        r <= data@.len() - 3,
        0 <= old(f).page_crc_tests <= final(f).page_crc_tests <= STB_PUSHDATA_CRC_COUNT,
        forall|k: int| 0 <= k < final(f).page_crc_tests ==> (#[trigger] final(f).scan@[k]).bytes_left > 0
            && 0 <= final(f).scan@[k].bytes_done <= data@.len() - 3,
        r == data@.len() - 3 || header_cut_at(data@, r as int),
        forall|k: int| 0 <= k < old(f).page_crc_tests ==> #[trigger] final(f).scan@[k] == old(f).scan@[k],
        forall|k: int| old(f).page_crc_tests <= k < final(f).page_crc_tests
            ==> scan_started_in(data@, #[trigger] final(f).scan@[k]),
        forall|k: int| old(f).page_crc_tests <= k < final(f).page_crc_tests
            ==> #[trigger] final(f).scan@[k] == scan_of_page(data@, final(f).scan@[k].bytes_done - 26),
        forall|p: int| #[trigger] first_header_at(data@, p) ==> old(f).page_crc_tests < final(f).page_crc_tests
            && final(f).scan@[old(f).page_crc_tests as int].bytes_done == p + 26,
{
    let mut data_len = data.len() - 3;
    let mut i: usize = 0;
    while i < data_len && f.page_crc_tests < STB_PUSHDATA_CRC_COUNT
        invariant_except_break
            data_len == data@.len() - 3,
        invariant
            f.wf(),
            f.same_setup(&*old(f)),
            *f == (Vorbis { scan: f.scan, page_crc_tests: f.page_crc_tests, ..*old(f) }),
            data_len <= data@.len() - 3,
            data@.len() < 0x7fff_0000,
            i <= data_len,
            0 <= old(f).page_crc_tests <= f.page_crc_tests <= STB_PUSHDATA_CRC_COUNT,
            old(f).page_crc_tests < STB_PUSHDATA_CRC_COUNT,
            forall|k: int| 0 <= k < f.page_crc_tests ==> (#[trigger] f.scan@[k]).bytes_left > 0
                && 0 <= f.scan@[k].bytes_done <= data@.len() - 3,
            forall|k: int| 0 <= k < old(f).page_crc_tests ==> #[trigger] f.scan@[k] == old(f).scan@[k],
            forall|k: int| old(f).page_crc_tests <= k < f.page_crc_tests
                ==> scan_started_in(data@, #[trigger] f.scan@[k]),
            forall|k: int| old(f).page_crc_tests <= k < f.page_crc_tests
                ==> #[trigger] f.scan@[k] == scan_of_page(data@, f.scan@[k].bytes_done - 26),
            f.page_crc_tests == old(f).page_crc_tests ==> forall|j: int| 0 <= j < i ==> !#[trigger] capture_at(data@, j),
            old(f).page_crc_tests < f.page_crc_tests ==> capture_at(data@, f.scan@[old(f).page_crc_tests as int].bytes_done - 26)
                && forall|j: int| 0 <= j < f.scan@[old(f).page_crc_tests as int].bytes_done - 26
                    ==> !#[trigger] capture_at(data@, j),
        ensures
            data_len == data@.len() - 3 || header_cut_at(data@, data_len as int),
            f.wf(),
            f.same_setup(&*old(f)),
            *f == (Vorbis { scan: f.scan, page_crc_tests: f.page_crc_tests, ..*old(f) }),
            0 <= old(f).page_crc_tests <= f.page_crc_tests <= STB_PUSHDATA_CRC_COUNT,
            forall|k: int| 0 <= k < f.page_crc_tests ==> (#[trigger] f.scan@[k]).bytes_left > 0
                && 0 <= f.scan@[k].bytes_done <= data@.len() - 3,
            forall|k: int| 0 <= k < old(f).page_crc_tests ==> #[trigger] f.scan@[k] == old(f).scan@[k],
            forall|k: int| old(f).page_crc_tests <= k < f.page_crc_tests
                ==> scan_started_in(data@, #[trigger] f.scan@[k]),
            forall|k: int| old(f).page_crc_tests <= k < f.page_crc_tests
                ==> #[trigger] f.scan@[k] == scan_of_page(data@, f.scan@[k].bytes_done - 26),
            f.page_crc_tests == old(f).page_crc_tests ==> forall|j: int| 0 <= j < i ==> !#[trigger] capture_at(data@, j),
            f.page_crc_tests == old(f).page_crc_tests ==> i == data_len,
            old(f).page_crc_tests < STB_PUSHDATA_CRC_COUNT,
            old(f).page_crc_tests < f.page_crc_tests ==> capture_at(data@, f.scan@[old(f).page_crc_tests as int].bytes_done - 26)
                && forall|j: int| 0 <= j < f.scan@[old(f).page_crc_tests as int].bytes_done - 26
                    ==> !#[trigger] capture_at(data@, j),
        decreases data_len - i,
    {
        if data[i] == 0x4f && data[i + 1] == 0x67 && data[i + 2] == 0x67 && data[i + 3] == 0x53 {
            if i + 26 >= data_len || i + 27 + data[i + 26] as usize >= data_len {
                assert(header_cut_at(data@, i as int));
                assert(capture_at(data@, i as int));
                assert(i < data@.len() - 3);
                data_len = i;
                break;
            }
            let nseg = data[i + 26] as usize;
            let mut len: i32 = 27 + nseg as i32;
            let mut j: usize = 0;
            while j < nseg
                invariant
                    j <= nseg <= 255,
                    i + 27 + nseg < data_len <= data@.len(),
                    27 <= len <= 27 + 255 + 255 * j,
                    nseg == data@[i + 26],
                    len == 27 + nseg + page_segs_total(data@, i as int, j as int),
                decreases nseg - j,
            {
                assert(byte_at(data@, i + 27 + j) == data@[i + 27 + j]);
                len = len + data[i + 27 + j] as i32;
                j = j + 1;
            }
            let ghost img = page_image(data@, i as int);
            assert(page_length(data@, i as int) == len);
            let mut crc: u32 = 0;
            let mut j: usize = 0;
            proof {
                assert(img.subrange(0, 0) =~= Seq::<u8>::empty());
            }
            while j < 22
                invariant
                    j <= 22,
                    i + 26 < data_len <= data@.len(),
                    f.wf(),
                    img == page_image(data@, i as int),
                    img.len() >= 27,
                    crc == crc32_of(0, img.subrange(0, j as int)),
                decreases 22 - j,
            {
                proof {
                    assert(img[j as int] == data@[i + j]);
                    lemma_crc32_push(0, img.subrange(0, j as int), data@[i + j]);
                    assert(img.subrange(0, j as int).push(data@[i + j]) =~= img.subrange(0, j + 1));
                }
                crc = crc32_update(f.crc_table.as_slice(), crc, data[i + j]);
                j = j + 1;
            }
            let mut k: usize = 0;
            while k < 4
                invariant
                    k <= 4,
                    f.wf(),
                    img == page_image(data@, i as int),
                    img.len() >= 27,
                    crc == crc32_of(0, img.subrange(0, 22 + k)),
                decreases 4 - k,
            {
                proof {
                    assert(img[22 + k] == 0u8);
                    lemma_crc32_push(0, img.subrange(0, 22 + k), 0u8);
                    assert(img.subrange(0, 22 + k).push(0u8) =~= img.subrange(0, 22 + k + 1));
                }
                crc = crc32_update(f.crc_table.as_slice(), crc, 0);
                k = k + 1;
            }
            let n = f.page_crc_tests as usize;
            let goal = le32_in(data, i + 22);
            let sample_loc: u32 = if data[i + 27 + nseg - 1] == 255 { 0xffff_ffff } else { le32_in(data, i + 6) };
            let scan = CRCscan { goal_crc: goal, bytes_left: len - 26, crc_so_far: crc, bytes_done: (i + 26) as i32, sample_loc };
            assert(scan_started_in(data@, scan));
            assert(capture_at(data@, i as int));
            proof {
                assert(data@[i + 27 + nseg - 1] == byte_at(data@, i + 26 + byte_at(data@, i + 26)));
                assert(scan == scan_of_page(data@, i as int));
            }
            f.scan.set(n, scan);
            f.page_crc_tests = f.page_crc_tests + 1;
        }
        i = i + 1;
    }
    proof {
        assert forall|p: int| #[trigger] first_header_at(data@, p) implies old(f).page_crc_tests < f.page_crc_tests
            && f.scan@[old(f).page_crc_tests as int].bytes_done == p + 26 by {
            assert(capture_at(data@, p));
            if f.page_crc_tests == old(f).page_crc_tests {
                if p < i {
                    assert(!capture_at(data@, p));
                } else if i < data@.len() - 3 {
                    assert(header_cut_at(data@, i as int));
                    if p > i {
                        assert(!capture_at(data@, i as int));
                    }
                }
            } else {
                let q = f.scan@[old(f).page_crc_tests as int].bytes_done - 26;
                assert(capture_at(data@, q));
                if q < p {
                    assert(!capture_at(data@, q));
                } else if p < q {
                    assert(!capture_at(data@, p));
                }
            }
        }
    }
    data_len
}

/// Where a scan fed with a block `d` comes from: a scan that was running
/// (`before`, the first `tests` of them), set to take the block from its
/// start, or a scan started on a page header of the block.
pub open spec fn scan_origin(s: CRCscan, before: Seq<CRCscan>, tests: int, d: Seq<u8>) -> bool {
    ||| exists|k: int| 0 <= k < tests && s == (CRCscan { bytes_done: 0, ..#[trigger] before[k] })
    ||| scan_started_in(d, s)
}

/// The scan `s`, fed the rest of its page from the block `d`, from
/// `bytes_done` up to `end`, finds its page: the CRC after those bytes is
/// the one the page records.
pub open spec fn scan_completes(s: CRCscan, d: Seq<u8>, end: int) -> bool {
    &&& 0 <= s.bytes_done
    &&& end == s.bytes_done + s.bytes_left
    &&& end <= d.len()
    &&& crc32_of(s.crc_so_far, d.subrange(s.bytes_done as int, end)) == s.goal_crc
}

/// The block `d` holds at `p` a page that a fresh search finds: the first
/// page header of the block, a valid page (its CRC checks out) that ends
/// before the last three bytes of the block, with no other capture
/// pattern inside it.
pub open spec fn page_found_in(d: Seq<u8>, p: int) -> bool {
    &&& first_header_at(d, p)
    &&& page_valid(d, p)
    &&& p + page_length(d, p) <= d.len() - 3
    &&& forall|j: int| p < j < p + page_length(d, p) ==> !#[trigger] capture_at(d, j)
}

/// A found page is the first page header of its block, so there is one at
/// most.
proof fn lemma_found_unique(d: Seq<u8>, p: int, q: int)
    requires
        first_header_at(d, p),
        first_header_at(d, q),
    ensures
        p == q,
{
    if p < q {
        assert(!capture_at(d, p));
    } else if q < p {
        assert(!capture_at(d, q));
    }
}

/// The CRC a scan started on a valid page ends with, once fed the rest of
/// the page from the block, is the one its header records.
proof fn lemma_found_crc(d: Seq<u8>, p: int)
    requires
        0 <= p,
        p + page_length(d, p) <= d.len(),
        page_valid(d, p),
    ensures
        crc32_of(scan_of_page(d, p).crc_so_far, d.subrange(p + 26, p + page_length(d, p)))
            == scan_of_page(d, p).goal_crc,
{
    let img = page_image(d, p);
    let l = page_length(d, p);
    lemma_segs_total_nonneg(d, p, byte_at(d, p + 26) as int);
    assert(l >= 27);
    assert(d.subrange(p + 26, p + l) =~= img.subrange(26, l)) by {
        assert forall|k: int| 0 <= k < l - 26 implies #[trigger] d.subrange(p + 26, p + l)[k] == img.subrange(26, l)[k] by {
            assert(img[26 + k] == byte_at(d, p + 26 + k));
        }
    }
    lemma_crc32_chunks(0, img.subrange(0, 26), img.subrange(26, l));
    assert(img.subrange(0, 26) + img.subrange(26, l) =~= img);
}

/// Resynchronises pushed data on a page: looks for page headers in the
/// block and feeds the bytes of each candidate page to its CRC (across
/// blocks); when one page's CRC checks out, decoding restarts at the page
/// that follows it. Gives how many bytes of the block were used.
pub fn vorbis_search_for_page_pushdata(f: &mut Vorbis, data: &Vec<u8>) -> (r: i32)
    requires
        old(f).wf(),
        0 <= old(f).page_crc_tests,
        data@.len() < 0x7fff_0000,
        forall|k: int| 0 <= k < old(f).page_crc_tests ==> (#[trigger] old(f).scan@[k]).bytes_left > 0,
    ensures
        final(f).wf(),
        final(f).same_setup(&*old(f)),
        0 <= r <= data@.len(),
        old(f).page_crc_tests < STB_PUSHDATA_CRC_COUNT && data@.len() < 4 ==> r == 0,
        final(f).page_crc_tests == -1 ==> final(f).previous_length == 0 && final(f).next_seg == -1
            && final(f).current_loc_valid
            && exists|s: CRCscan| scan_origin(s, old(f).scan@, old(f).page_crc_tests as int, data@)
                && #[trigger] scan_completes(s, data@, r as int) && final(f).current_loc == s.sample_loc,
        final(f).page_crc_tests != -1 ==> 0 <= final(f).page_crc_tests
            && forall|k: int| 0 <= k < final(f).page_crc_tests ==> (#[trigger] final(f).scan@[k]).bytes_left > 0,
        final(f).page_crc_tests != -1 && old(f).page_crc_tests < STB_PUSHDATA_CRC_COUNT && data@.len() >= 4
            ==> r == data@.len() - 3 || header_cut_at(data@, r as int),
        final(f).page_crc_tests != -1 && old(f).page_crc_tests >= STB_PUSHDATA_CRC_COUNT ==> r == data@.len(),
        forall|p: int| old(f).page_crc_tests == 0 && #[trigger] page_found_in(data@, p) ==> final(f).page_crc_tests == -1
            && r == p + page_length(data@, p) && final(f).current_loc == scan_of_page(data@, p).sample_loc,
{
    let ghost fp = choose|p: int| page_found_in(data@, p);
    let ghost has = old(f).page_crc_tests == 0 && page_found_in(data@, fp);
    let mut i: usize = 0;
    while i < f.page_crc_tests as usize
        invariant
            f.wf(),
            f.same_setup(&*old(f)),
            *f == (Vorbis { scan: f.scan, ..*old(f) }),
            0 <= f.page_crc_tests,
            i <= f.page_crc_tests,
            forall|k: int| 0 <= k < f.page_crc_tests ==> (#[trigger] f.scan@[k]).bytes_left > 0,
            forall|k: int| 0 <= k < i ==> (#[trigger] f.scan@[k]).bytes_done == 0,
            forall|k: int| 0 <= k < i ==> #[trigger] f.scan@[k] == (CRCscan { bytes_done: 0, ..old(f).scan@[k] }),
            forall|k: int| i <= k < STB_PUSHDATA_CRC_COUNT ==> #[trigger] f.scan@[k] == old(f).scan@[k],
        decreases f.page_crc_tests - i,
    {
        let mut sc = f.scan[i];
        sc.bytes_done = 0;
        f.scan.set(i, sc);
        i = i + 1;
    }
    proof {
        assert forall|k: int| 0 <= k < f.page_crc_tests implies
            scan_origin(#[trigger] f.scan@[k], old(f).scan@, old(f).page_crc_tests as int, data@) by {
            assert(f.scan@[k] == (CRCscan { bytes_done: 0, ..old(f).scan@[k] }));
        }
    }
    let mut data_len: usize = data.len();
    if f.page_crc_tests < STB_PUSHDATA_CRC_COUNT {
        if data_len < 4 {
            proof {
                assert forall|p: int| old(f).page_crc_tests == 0 && #[trigger] page_found_in(data@, p) implies false by {}
            }
            return 0;
        }
        data_len = start_page_scans(f, data);
    }
    proof {
        if has {
            assert(first_header_at(data@, fp));
            assert(f.scan@[0].bytes_done == fp + 26);
            assert(f.scan@[0] == scan_of_page(data@, fp));
            if data_len != data@.len() - 3 {
                assert(header_cut_at(data@, data_len as int));
                assert(capture_at(data@, data_len as int));
                if data_len < fp {
                    assert(!capture_at(data@, data_len as int));
                }
            }
            assert(data_len >= fp + page_length(data@, fp));
            lemma_found_crc(data@, fp);
        }
    }
    let mut i: usize = 0;
    while i < f.page_crc_tests as usize
        invariant
            f.wf(),
            f.same_setup(&*old(f)),
            0 <= f.page_crc_tests,
            i <= f.page_crc_tests,
            data_len <= data@.len() < 0x7fff_0000,
            old(f).page_crc_tests < STB_PUSHDATA_CRC_COUNT ==> data@.len() >= 4,
            old(f).page_crc_tests < STB_PUSHDATA_CRC_COUNT ==> data_len == data@.len() - 3
                || header_cut_at(data@, data_len as int),
            old(f).page_crc_tests >= STB_PUSHDATA_CRC_COUNT ==> data_len == data@.len(),
            forall|k: int| 0 <= k < f.page_crc_tests ==> (#[trigger] f.scan@[k]).bytes_left > 0,
            forall|k: int| i <= k < f.page_crc_tests ==> 0 <= (#[trigger] f.scan@[k]).bytes_done <= data@.len(),
            forall|k: int| i <= k < f.page_crc_tests
                ==> scan_origin(#[trigger] f.scan@[k], old(f).scan@, old(f).page_crc_tests as int, data@),
            has ==> i == 0 && f.page_crc_tests >= 1 && f.scan@[0] == scan_of_page(data@, fp)
                && data_len >= fp + page_length(data@, fp) && page_found_in(data@, fp)
                && crc32_of(scan_of_page(data@, fp).crc_so_far, data@.subrange(fp + 26, fp + page_length(data@, fp)))
                    == scan_of_page(data@, fp).goal_crc,
            has == (old(f).page_crc_tests == 0 && page_found_in(data@, fp)),
            fp == choose|p: int| page_found_in(data@, p),
        decreases f.page_crc_tests - i,
    {
        let mut sc = f.scan[i];
        let ghost sc0 = sc;
        let n = sc.bytes_done as usize;
        assert(sc == f.scan@[i as int]);
        assert(0 <= sc.bytes_done <= data@.len());
        let avail = if n <= data_len { data_len - n } else { 0 };
        let m: usize = if (sc.bytes_left as usize) < avail { sc.bytes_left as usize } else { avail };
        assert(n + m <= data@.len());
        proof {
            if has {
                lemma_segs_total_nonneg(data@, fp, byte_at(data@, fp + 26) as int);
                assert(n == fp + 26);
                assert(m == page_length(data@, fp) - 26);
            }
        }
        let mut crc = sc.crc_so_far;
        let mut j: usize = 0;
        proof {
            assert(data@.subrange(n as int, n as int) =~= Seq::<u8>::empty());
        }
        while j < m
            invariant
                j <= m,
                n + m <= data@.len() < 0x7fff_0000,
                f.wf(),
                crc == crc32_of(sc0.crc_so_far, data@.subrange(n as int, n + j)),
            decreases m - j,
        {
            proof {
                lemma_crc32_push(sc0.crc_so_far, data@.subrange(n as int, n + j), data@[n + j]);
                assert(data@.subrange(n as int, n + j).push(data@[n + j]) =~= data@.subrange(n as int, n + j + 1));
            }
            crc = crc32_update(f.crc_table.as_slice(), crc, data[n + j]);
            j = j + 1;
        }
        sc.bytes_left = sc.bytes_left - m as i32;
        sc.crc_so_far = crc;
        f.scan.set(i, sc);
        if sc.bytes_left == 0 {
            if sc.crc_so_far == sc.goal_crc {
                f.page_crc_tests = -1;
                f.previous_length = 0;
                f.next_seg = -1;
                f.current_loc = sc.sample_loc;
                f.current_loc_valid = true;
                proof {
                    assert(scan_origin(sc0, old(f).scan@, old(f).page_crc_tests as int, data@));
                    assert(scan_completes(sc0, data@, (n + m) as int));
                    assert forall|p: int| old(f).page_crc_tests == 0 && #[trigger] page_found_in(data@, p)
                        implies n + m == p + page_length(data@, p) && sc.sample_loc == scan_of_page(data@, p).sample_loc by {
                        assert(page_found_in(data@, fp));
                        lemma_found_unique(data@, p, fp);
                    }
                }
                return (n + m) as i32;
            }
            f.page_crc_tests = f.page_crc_tests - 1;
            let last = f.scan[f.page_crc_tests as usize];
            f.scan.set(i, last);
        } else {
            i = i + 1;
        }
    }
    proof {
        assert forall|p: int| old(f).page_crc_tests == 0 && #[trigger] page_found_in(data@, p) implies false by {
            assert(page_found_in(data@, fp));
        }
    }
    data_len as i32
}

} // verus!
