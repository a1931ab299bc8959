use vstd::prelude::*;
use crate::crc::{crc32_of, crc32_update, lemma_crc32_push};
use crate::setup::clamp;
use crate::types::{ProbedPage, VorbisError};
use crate::vorbis::{Vorbis, byte_at, le32_at, get8, get32, getn, set_file_offset, stb_vorbis_get_file_offset, error};

verus! {

/// The sum of the first `k` segment lengths of the page at `p`.
pub open spec fn page_segs_total(d: Seq<u8>, p: int, k: int) -> int
    decreases k,
{
    if k <= 0 { 0 } else { page_segs_total(d, p, k - 1) + byte_at(d, p + 27 + k - 1) }
}

/// The length of the page at `p`: its header, segment table and payload.
pub open spec fn page_length(d: Seq<u8>, p: int) -> int {
    27 + byte_at(d, p + 26) + page_segs_total(d, p, byte_at(d, p + 26) as int)
}

/// The bytes of the page at `p` as its CRC covers them: the CRC field
/// reads as zeros (and bytes past the end of the stream as zeros too).
pub open spec fn page_image(d: Seq<u8>, p: int) -> Seq<u8> {
    Seq::new(page_length(d, p) as nat, |i: int| if 22 <= i < 26 { 0u8 } else { byte_at(d, p + i) })
}

/// A page begins at `p`: "OggS", version 0, and the CRC it records is the
/// CRC of its bytes.
pub open spec fn page_valid(d: Seq<u8>, p: int) -> bool {
    &&& byte_at(d, p) == 0x4f && byte_at(d, p + 1) == 0x67 && byte_at(d, p + 2) == 0x67 && byte_at(d, p + 3) == 0x53
    &&& byte_at(d, p + 4) == 0
    &&& crc32_of(0, page_image(d, p)) == le32_at(d, p + 22)
}

/// Feeds the next `count` bytes of the stream to a running CRC, which
/// covers the image of the page at `p` up to `k`; gives the CRC and the sum
/// of the bytes.
fn crc_stream_bytes(f: &mut Vorbis, crc: u32, count: u32, ghost_p: Ghost<int>, ghost_k: Ghost<int>) -> (r: (u32, u32))
    requires
        old(f).wf(),
        0 <= ghost_k@,
        ghost_k@ >= 26,
        ghost_k@ + count <= page_length(old(f).data@, ghost_p@),
        old(f).pos == clamp(ghost_p@ + ghost_k@, old(f).data@.len() as int),
        crc == crc32_of(0, page_image(old(f).data@, ghost_p@).subrange(0, ghost_k@)),
        count <= 255 * 255,
    ensures
        final(f).wf(),
        final(f).same_setup(&*old(f)),
        final(f).pos == clamp(ghost_p@ + ghost_k@ + count, old(f).data@.len() as int),
        r.0 == crc32_of(0, page_image(old(f).data@, ghost_p@).subrange(0, ghost_k@ + count)),
        ghost_k@ == 27 ==> r.1 == page_segs_total(old(f).data@, ghost_p@, count as int),
        final(f).eof == (old(f).eof || (count > 0 && ghost_p@ + ghost_k@ + count > old(f).data@.len())),
{
    let ghost d = f.data@;
    let ghost p = ghost_p@;
    let ghost img = page_image(d, p);
    let mut c = crc;
    let mut sum: u32 = 0;
    let mut i: u32 = 0;
    while i < count
        invariant
            f.wf(),
            f.same_setup(&*old(f)),
            d == f.data@,
            img == page_image(d, p),
            i <= count <= 255 * 255,
            sum <= 255 * i,
            ghost_k@ >= 26,
            ghost_k@ + count <= img.len(),
            f.pos == clamp(p + ghost_k@ + i, d.len() as int),
            c == crc32_of(0, img.subrange(0, ghost_k@ + i)),
            ghost_k@ == 27 ==> sum == page_segs_total(d, p, i as int),
            f.eof == (old(f).eof || (i > 0 && p + ghost_k@ + i > d.len())),
        decreases count - i,
    {
        let ghost k = ghost_k@ + i;
        let b = get8(f);
        proof {
            assert(img[k] == byte_at(d, p + k));
            assert(b == img[k]);
            lemma_crc32_push(0, img.subrange(0, k), b);
            assert(img.subrange(0, k).push(b) =~= img.subrange(0, k + 1));
        }
        c = crc32_update(f.crc_table.as_slice(), c, b);
        sum = sum + b as u32;
        i = i + 1;
    }
    (c, sum)
}

/// The CRC of the first 27 bytes of the page image at `p` whose first four
/// bytes are "OggS", reading the 23 header bytes that follow them (the
/// stream stands at `p + 4`); gives it with the header bytes read.
fn crc_page_header(f: &mut Vorbis, ghost_p: Ghost<int>) -> (r: (u32, Vec<u8>))
    requires
        old(f).wf(),
        old(f).pos == ghost_p@ + 4,
        ghost_p@ >= 0,
        byte_at(old(f).data@, ghost_p@) == 0x4f && byte_at(old(f).data@, ghost_p@ + 1) == 0x67
            && byte_at(old(f).data@, ghost_p@ + 2) == 0x67 && byte_at(old(f).data@, ghost_p@ + 3) == 0x53,
    ensures
        final(f).wf(),
        final(f).same_setup(&*old(f)),
        final(f).pos == clamp(ghost_p@ + 27, old(f).data@.len() as int),
        final(f).eof == (old(f).eof || ghost_p@ + 27 > old(f).data@.len()),
        r.1@.len() == 23,
        forall|i: int| 0 <= i < 23 ==> #[trigger] r.1@[i] == byte_at(old(f).data@, ghost_p@ + 4 + i),
        page_length(old(f).data@, ghost_p@) >= 27 ==> r.0 == crc32_of(0, page_image(old(f).data@, ghost_p@).subrange(0, 27)),
{
    let ghost d = f.data@;
    let ghost p = ghost_p@;
    let ghost img = page_image(d, p);
    let mut c: u32 = 0;
    let capture: [u8; 4] = [0x4f, 0x67, 0x67, 0x53];
    let mut i: usize = 0;
    proof {
        assert(img.subrange(0, 0) =~= Seq::<u8>::empty());
    }
    while i < 4
        invariant
            f.wf(),
            f.same_setup(&*old(f)),
            *f == *old(f),
            d == f.data@,
            img == page_image(d, p),
            capture@ == seq![0x4fu8, 0x67u8, 0x67u8, 0x53u8],
            byte_at(d, p) == 0x4f && byte_at(d, p + 1) == 0x67 && byte_at(d, p + 2) == 0x67 && byte_at(d, p + 3) == 0x53,
            i <= 4,
            img.len() >= 27 ==> c == crc32_of(0, img.subrange(0, i as int)),
        decreases 4 - i,
    {
        let b = capture[i];
        proof {
            if img.len() >= 27 {
                assert(img[i as int] == byte_at(d, p + i));
                lemma_crc32_push(0, img.subrange(0, i as int), b);
                assert(img.subrange(0, i as int).push(b) =~= img.subrange(0, i as int + 1));
            }
        }
        c = crc32_update(f.crc_table.as_slice(), c, b);
        i = i + 1;
    }
    let mut hdr: Vec<u8> = Vec::new();
    while i < 27
        invariant
            f.wf(),
            f.same_setup(&*old(f)),
            d == f.data@,
            img == page_image(d, p),
            4 <= i <= 27,
            f.pos == clamp(p + i, d.len() as int),
            f.eof == (old(f).eof || (i > 4 && p + i > d.len())),
            hdr@.len() == i - 4,
            forall|k: int| 0 <= k < i - 4 ==> #[trigger] hdr@[k] == byte_at(d, p + 4 + k),
            img.len() >= 27 ==> c == crc32_of(0, img.subrange(0, i as int)),
        decreases 27 - i,
    {
        let b = get8(f);
        hdr.push(b);
        let fed: u8 = if 22 <= i && i < 26 { 0 } else { b };
        proof {
            if img.len() >= 27 {
                assert(img[i as int] == fed);
                lemma_crc32_push(0, img.subrange(0, i as int), fed);
                assert(img.subrange(0, i as int).push(fed) =~= img.subrange(0, i as int + 1));
            }
        }
        c = crc32_update(f.crc_table.as_slice(), c, fed);
        i = i + 1;
    }
    (c, hdr)
}

/// The sum of segment lengths is not negative.
pub(crate) proof fn lemma_segs_total_nonneg(d: Seq<u8>, p: int, k: int)
    ensures
        0 <= page_segs_total(d, p, k) <= 255 * (if k > 0 { k } else { 0 }),
    decreases k,
{
    if k > 0 {
        lemma_segs_total_nonneg(d, p, k - 1);
    }
}

/// What checking a candidate page start found.
enum Probe {
    /// A valid page, with where it ends and whether it is the last.
    Found(u32, bool),
    /// No valid page starts there.
    Invalid,
    /// The search is to stop.
    Stop,
}

/// Checking the candidate page start `p` of `d` reads past the end of the
/// data: in its capture pattern (up to the first byte that differs), in
/// its 27-byte header, or, for a page of version 0 with a payload, in its
/// segment table.
pub open spec fn probe_stops(d: Seq<u8>, p: int) -> bool {
    let len = d.len() as int;
    if byte_at(d, p + 1) != 0x67 {
        p + 2 > len
    } else if byte_at(d, p + 2) != 0x67 {
        p + 3 > len
    } else if byte_at(d, p + 3) != 0x53 {
        p + 4 > len
    } else if p + 27 > len {
        true
    } else if byte_at(d, p + 4) != 0 {
        false
    } else {
        page_segs_total(d, p, byte_at(d, p + 26) as int) != 0 && p + 27 + byte_at(d, p + 26) > len
    }
}

/// Checks the candidate page start `p`, whose 'O' was just read (the
/// stream stands at `p + 1`).
fn probe_page(f: &mut Vorbis, ghost_p: Ghost<int>) -> (r: Probe)
    requires
        old(f).wf(),
        !old(f).push_mode,
        0 <= ghost_p@,
        old(f).pos == ghost_p@ + 1,
        byte_at(old(f).data@, ghost_p@) == 0x4f,
    ensures
        final(f).wf(),
        final(f).same_setup(&*old(f)),
        r matches Probe::Found(end, last) ==> {
            let d = old(f).data@;
            &&& page_valid(d, ghost_p@)
            &&& end == clamp(ghost_p@ + page_length(d, ghost_p@), d.len() as int)
            &&& last == (byte_at(d, ghost_p@ + 5) & 4 != 0)
        },
        r is Invalid ==> !page_valid(old(f).data@, ghost_p@),
        r is Stop ==> final(f).eof,
        !old(f).eof ==> (r is Stop <==> probe_stops(old(f).data@, ghost_p@)),
{
    let ghost d = f.data@;
    let ghost p = ghost_p@;
    let b1 = get8(f);
    let mut matched = false;
    if b1 == 0x67 {
        let b2 = get8(f);
        if b2 == 0x67 {
            let b3 = get8(f);
            if b3 == 0x53 {
                matched = true;
            }
        }
    }
    if f.eof {
        return Probe::Stop;
    }
    if !matched {
        return Probe::Invalid;
    }
    let (hcrc, hdr) = crc_page_header(f, ghost_p);
    if f.eof {
        return Probe::Stop;
    }
    if hdr[0] != 0 {
        return Probe::Invalid;
    }
    let goal: u32 = hdr[18] as u32 + (hdr[19] as u32) * 256 + (hdr[20] as u32) * 65536 + (hdr[21] as u32) * 16777216;
    let nseg = hdr[22];
    proof {
        lemma_segs_total_nonneg(d, p, nseg as int);
    }
    let (crc1, total) = crc_stream_bytes(f, hcrc, nseg as u32, ghost_p, Ghost(27int));
    if total != 0 && f.eof {
        return Probe::Stop;
    }
    let (crc2, _t) = crc_stream_bytes(f, crc1, total, ghost_p, Ghost(27 + nseg as int));
    proof {
        assert(page_image(d, p).subrange(0, page_length(d, p)) =~= page_image(d, p));
    }
    if crc2 == goal {
        let end = stb_vorbis_get_file_offset(f);
        let last = (hdr[1] & 4) != 0;
        return Probe::Found(end, last);
    }
    Probe::Invalid
}

/// The search standing at `pos` has come within 25 bytes of a page start
/// beyond the stream's length (the 25 taken off modulo 2^32).
pub open spec fn past_stream_end(pos: int, stream_len: u32) -> bool {
    (if pos >= 25 { pos - 25 } else { pos - 25 + 0x1_0000_0000 }) > stream_len
}

/// Where a search of `d` for a valid page, from `p` on, stops: the first
/// candidate ('O') that is a valid page, or nothing when the data ends,
/// when a candidate lies within 25 bytes of a start beyond the stream's
/// length, or when checking a candidate reads past the end of the data.
pub open spec fn page_search(d: Seq<u8>, p: int, stream_len: u32) -> Option<int>
    decreases d.len() - p,
{
    if p < 0 || p >= d.len() {
        None
    } else if byte_at(d, p) == 0x4f {
        if past_stream_end(p + 1, stream_len) {
            None
        } else if probe_stops(d, p) {
            None
        } else if page_valid(d, p) {
            Some(p)
        } else {
            page_search(d, p + 1, stream_len)
        }
    } else {
        page_search(d, p + 1, stream_len)
    }
}

/// Searches the stream, from the current position on, for a page whose
/// CRC checks out, and stops at its start. Gives where the page ends and
/// whether it is the last page of the stream; nothing when the stream ends
/// first (or the search comes within 25 bytes of the start of the stream
/// beyond the stream's length).
pub fn vorbis_find_page(f: &mut Vorbis) -> (r: Option<(u32, bool)>)
    requires
        old(f).wf(),
        !old(f).push_mode,
    ensures
        final(f).wf(),
        final(f).same_setup(&*old(f)),
        r is Some ==> page_valid(old(f).data@, final(f).pos as int),
        r is Some ==> old(f).pos <= final(f).pos < old(f).data@.len() && !final(f).eof,
        r matches Some(t) ==> t.0 == clamp(final(f).pos + page_length(old(f).data@, final(f).pos as int),
            old(f).data@.len() as int),
        r matches Some(t) ==> t.1 == (byte_at(old(f).data@, final(f).pos + 5) & 4 != 0),
        r is Some ==> forall|q: int| old(f).pos <= q < final(f).pos ==> !page_valid(old(f).data@, q),
        r is None ==> final(f).eof || past_stream_end(final(f).pos as int, final(f).stream_len),
        old(f).eof ==> r is None,
        !old(f).eof ==> (r is Some <==> page_search(old(f).data@, old(f).pos as int, old(f).stream_len) is Some),
        r is Some ==> page_search(old(f).data@, old(f).pos as int, old(f).stream_len) == Some(final(f).pos as int),
{
    let ghost d = f.data@;
    let ghost len = d.len() as int;
    let ghost target = page_search(d, f.pos as int, f.stream_len);
    loop
        invariant
            f.wf(),
            f.same_setup(&*old(f)),
            d == f.data@,
            len == d.len(),
            !f.push_mode,
            old(f).pos <= f.pos,
            forall|q: int| old(f).pos <= q < f.pos ==> !page_valid(d, q),
            target == page_search(d, old(f).pos as int, old(f).stream_len),
            old(f).eof ==> *f == *old(f),
            !old(f).eof && !f.eof ==> target == page_search(d, f.pos as int, f.stream_len),
            !old(f).eof && f.eof ==> target is None,
        decreases (len - f.pos) * 2 + (if f.eof { 0int } else { 1int }),
    {
        if f.eof {
            return None;
        }
        let p = f.pos;
        let n = get8(f);
        if n == 0x4f {
            let retry_loc = stb_vorbis_get_file_offset(f);
            if retry_loc.wrapping_sub(25) > f.stream_len {
                assert(past_stream_end(f.pos as int, f.stream_len));
                return None;
            }
            match probe_page(f, Ghost(p as int)) {
                Probe::Stop => { return None; },
                Probe::Found(end, last) => {
                    set_file_offset(f, retry_loc - 1);
                    return Some((end, last));
                },
                Probe::Invalid => {},
            }
            set_file_offset(f, retry_loc);
        }
    }
}

/// The total sample count of a stream whose length is unknown.
pub const SAMPLE_UNKNOWN: u32 = 0xffff_ffff;

/// The little-endian 32-bit value of four bytes of `v` at `i`.
fn le32_of(v: &Vec<u8>, i: usize) -> (r: u32)
    requires
        i + 4 <= v@.len(),
    ensures
        r == v@[i as int] as int + v@[i + 1] as int * 256 + v@[i + 2] as int * 65536 + v@[i + 3] as int * 16777216,
{
    let _len = v.len();
    let b0 = v[i] as u32;
    let b1 = v[i + 1] as u32;
    let b2 = v[i + 2] as u32;
    let b3 = v[i + 3] as u32;
    assert(b0 <= 255 && b1 <= 255 && b2 <= 255 && b3 <= 255);
    b0 + b1 * 256 + b2 * 65536 + b3 * 16777216
}

/// Reads the header of the page at the current position: where it starts,
/// where it ends and the granule position it records; the position is
/// left where it was. Nothing when no page header is there. When the
/// stream ends inside the segment table, the table is taken as zeros.
pub fn get_seek_page_info(f: &mut Vorbis) -> (r: Option<ProbedPage>)
    requires
        old(f).wf(),
        !old(f).push_mode,
    ensures
        final(f).wf(),
        final(f).same_setup(&*old(f)),
        r is Some ==> final(f).pos == old(f).pos && !final(f).eof,
        r is Some ==> r->0.page_end >= r->0.page_start + 27,
        r is Some ==> {
            let d = old(f).data@;
            let p = old(f).pos as int;
            &&& p + 27 <= d.len()
            &&& byte_at(d, p) == 0x4f && byte_at(d, p + 1) == 0x67 && byte_at(d, p + 2) == 0x67 && byte_at(d, p + 3) == 0x53
            &&& r->0.page_start == p
            &&& r->0.last_decoded_sample == le32_at(d, p + 6)
            &&& p + 27 + byte_at(d, p + 26) <= d.len() ==> r->0.page_end == p + page_length(d, p)
        },
        r is None ==> !(old(f).pos + 27 <= old(f).data@.len()
            && byte_at(old(f).data@, old(f).pos as int) == 0x4f && byte_at(old(f).data@, old(f).pos + 1) == 0x67
            && byte_at(old(f).data@, old(f).pos + 2) == 0x67 && byte_at(old(f).data@, old(f).pos + 3) == 0x53),
{
    let page_start = stb_vorbis_get_file_offset(f);
    let ghost d = f.data@;
    let ghost p = f.pos as int;
    let header = match getn(f, 27) {
        None => { return None; },
        Some(h) => h,
    };
    if header[0] != 0x4f || header[1] != 0x67 || header[2] != 0x67 || header[3] != 0x53 {
        return None;
    }
    let nseg = header[26] as usize;
    let lacing = match getn(f, nseg) {
        None => crate::setup::filled(0u8, nseg),
        Some(l) => l,
    };
    let mut len: u32 = 0;
    let mut i: usize = 0;
    while i < nseg
        invariant
            i <= nseg <= 255,
            p >= 0,
            lacing@.len() == nseg,
            len <= 255 * i,
            p + 27 + nseg <= d.len() ==> lacing@ == d.subrange(p + 27, p + 27 + nseg),
            p + 27 + nseg <= d.len() ==> len == page_segs_total(d, p, i as int),
        decreases nseg - i,
    {
        proof {
            if p + 27 + nseg <= d.len() {
                assert(lacing@[i as int] == byte_at(d, p + 27 + i));
            }
        }
        len = len + lacing[i] as u32;
        i = i + 1;
    }
    let last = le32_of(&header, 6);
    proof {
        assert(header@[26] == byte_at(d, p + 26));
        assert(header@[6] == byte_at(d, p + 6) && header@[7] == byte_at(d, p + 7)
            && header@[8] == byte_at(d, p + 8) && header@[9] == byte_at(d, p + 9));
    }
    let page_end = page_start + 27 + nseg as u32 + len;
    set_file_offset(f, page_start);
    Some(ProbedPage { page_start, page_end, last_decoded_sample: last })
}

/// Moves to a page that ends at or after `limit_offset` and starts before
/// it, searching from 64 KiB before the limit (or the first audio page).
pub fn go_to_page_before(f: &mut Vorbis, limit_offset: u32) -> (r: bool)
    requires
        old(f).wf(),
        !old(f).push_mode,
    ensures
        final(f).wf(),
        final(f).same_setup(&*old(f)),
        r ==> page_valid(old(f).data@, final(f).pos as int),
        r ==> final(f).pos < limit_offset <= clamp(final(f).pos + page_length(old(f).data@, final(f).pos as int),
            old(f).data@.len() as int),
        !r ==> final(f).eof || past_stream_end(final(f).pos as int, final(f).stream_len),
{
    let previous_safe: u32 = if limit_offset >= 65536 && limit_offset - 65536 >= f.first_audio_page_offset {
        limit_offset - 65536
    } else {
        f.first_audio_page_offset
    };
    set_file_offset(f, previous_safe);
    let ghost d = f.data@;
    loop
        invariant
            f.wf(),
            f.same_setup(&*old(f)),
            d == f.data@,
            !f.push_mode,
        decreases d.len() - f.pos + (if f.eof { 0int } else { 1int }),
    {
        let ghost pos0 = f.pos;
        let ghost eof0 = f.eof;
        match vorbis_find_page(f) {
            None => { return false; },
            Some((end, _last)) => {
                if end >= limit_offset && stb_vorbis_get_file_offset(f) < limit_offset {
                    return true;
                }
                proof {
                    lemma_segs_total_nonneg(d, f.pos as int, byte_at(d, f.pos + 26) as int);
                }
                set_file_offset(f, end);
            },
        }
    }
}

/// A search that finds a page finds it at or after where it started, with
/// its whole header in the data.
pub proof fn lemma_page_search_found(d: Seq<u8>, p: int, stream_len: u32)
    ensures
        page_search(d, p, stream_len) matches Some(q) ==> p <= q && q + 27 <= d.len() && page_valid(d, q)
            && !probe_stops(d, q) && !past_stream_end(q + 1, stream_len),
    decreases d.len() - p,
{
    if 0 <= p < d.len() {
        lemma_page_search_found(d, p + 1, stream_len);
    }
}

/// The start of the last page of the chain that begins with the valid
/// page at `q`: while a page is not marked last, the next page is the
/// first valid one found from its end.
pub open spec fn last_in_chain(d: Seq<u8>, q: int, stream_len: u32) -> int
    decreases d.len() - q,
{
    if q < 0 || q >= d.len() || byte_at(d, q + 5) & 4 != 0 {
        q
    } else {
        let e = clamp(q + page_length(d, q), d.len() as int);
        if e >= d.len() {
            q
        } else {
            match page_search(d, e, stream_len) {
                Some(q2) => if q < q2 < d.len() { last_in_chain(d, q2, stream_len) } else { q },
                None => q,
            }
        }
    }
}

/// The sample count that the granule position of the page at `l` gives:
/// unknown when it is all ones, the largest count when it needs more than
/// 32 bits.
pub open spec fn granule_total(d: Seq<u8>, l: int) -> u32 {
    let lo = le32_at(d, l + 6);
    let hi = le32_at(d, l + 10);
    if lo == 0xffff_ffffu32 && hi == 0xffff_ffffu32 {
        SAMPLE_UNKNOWN
    } else if hi != 0 {
        0xffff_fffeu32
    } else {
        lo
    }
}

/// Where the search for the last page starts: 64 KiB before the end of
/// the stream, or the first audio page when that is later.
pub open spec fn last_page_search_start(stream_len: u32, first_audio: u32) -> int {
    if stream_len >= 65536 && stream_len - 65536 >= first_audio { stream_len - 65536 } else { first_audio as int }
}

/// The sample count of the stream `d`: the granule total of the last page
/// of the chain of pages found from the search start; unknown when no
/// page is found.
pub open spec fn stream_length_spec(d: Seq<u8>, stream_len: u32, first_audio: u32) -> u32 {
    let start = last_page_search_start(stream_len, first_audio);
    if start >= d.len() {
        SAMPLE_UNKNOWN
    } else {
        match page_search(d, start, stream_len) {
            None => SAMPLE_UNKNOWN,
            Some(q) => granule_total(d, last_in_chain(d, q, stream_len)),
        }
    }
}

/// The sample count a decoder keeps: the one it holds, else the one its
/// stream gives.
pub open spec fn kept_length(f: Vorbis) -> u32 {
    if f.total_samples != 0 { f.total_samples } else { stream_length_spec(f.data@, f.stream_len, f.first_audio_page_offset) }
}

/// The length the decoder reports: its kept sample count, 0 when unknown.
pub open spec fn length_reported(f: Vorbis) -> u32 {
    if kept_length(f) == SAMPLE_UNKNOWN { 0 } else { kept_length(f) }
}

/// Asking for the length again gives the same answer: the decoder left
/// by a call, which keeps the count it found, reports what the call did.
pub proof fn lemma_length_stable(f0: Vorbis, f1: Vorbis)
    requires
        f1.data == f0.data,
        f1.stream_len == f0.stream_len,
        f1.first_audio_page_offset == f0.first_audio_page_offset,
        f1.total_samples == kept_length(f0),
    ensures
        length_reported(f1) == length_reported(f0),
{
}

/// The number of samples in the stream, read from the granule position of
/// its last page (found by searching from 64 KiB before the end) and kept
/// for later calls; 0 when it cannot be found, and in push mode (an error).
pub fn stb_vorbis_stream_length_in_samples(f: &mut Vorbis) -> (r: u32)
    requires
        old(f).wf(),
    ensures
        final(f).wf(),
        final(f).same_setup(&*old(f)),
        old(f).push_mode ==> r == 0 && *final(f) == (Vorbis { error: VorbisError::InvalidApiMixing, ..*old(f) }),
        !old(f).push_mode && old(f).total_samples != 0 ==> *final(f) == *old(f),
        !old(f).push_mode ==> r == (if final(f).total_samples == SAMPLE_UNKNOWN { 0 } else { final(f).total_samples }),
        !old(f).push_mode && old(f).total_samples == 0 ==> final(f).pos == clamp(old(f).pos as int, old(f).data@.len() as int),
        !old(f).push_mode && old(f).total_samples == 0 && final(f).total_samples != SAMPLE_UNKNOWN ==> {
            let d = old(f).data@;
            let q = final(f).p_last.page_start as int;
            &&& page_valid(d, q)
            &&& q + 6 <= d.len() ==> final(f).total_samples
                == (if le32_at(d, q + 10) != 0 { 0xffff_fffeu32 } else { le32_at(d, q + 6) })
            &&& final(f).p_last.last_decoded_sample == final(f).total_samples
        },
        !old(f).push_mode ==> final(f).total_samples == kept_length(*old(f)) && r == length_reported(*old(f)),
{
    if f.push_mode {
        error(f, VorbisError::InvalidApiMixing);
        return 0;
    }
    if f.total_samples == 0 {
        let ghost d = f.data@;
        let restore_offset = stb_vorbis_get_file_offset(f);
        let previous_safe: u32 = if f.stream_len >= 65536 && f.stream_len - 65536 >= f.first_audio_page_offset {
            f.stream_len - 65536
        } else {
            f.first_audio_page_offset
        };
        set_file_offset(f, previous_safe);
        match vorbis_find_page(f) {
            None => {
                f.error = VorbisError::CantFindLastPage;
                f.total_samples = SAMPLE_UNKNOWN;
            },
            Some((end0, last0)) => {
                let mut end = end0;
                let mut last = last0;
                let mut last_page_loc = stb_vorbis_get_file_offset(f);
                let ghost mut lp = f.pos as int;
                let ghost first = lp;
                proof {
                    assert(page_valid(d, lp));
                    lemma_page_search_found(d, last_page_search_start(f.stream_len, f.first_audio_page_offset), f.stream_len);
                }
                while !last
                    invariant
                        f.wf(),
                        f.same_setup(&*old(f)),
                        d == f.data@,
                        !f.push_mode,
                        0 <= lp < d.len(),
                        last_page_loc == lp,
                        page_valid(d, lp),
                        end == clamp(lp + page_length(d, lp), d.len() as int),
                        lp + 27 <= d.len(),
                        last == (byte_at(d, lp + 5) & 4 != 0),
                        last_in_chain(d, first, f.stream_len) == last_in_chain(d, lp, f.stream_len),
                    ensures
                        f.wf(),
                        f.same_setup(&*old(f)),
                        d == f.data@,
                        !f.push_mode,
                        0 <= lp < d.len(),
                        last_page_loc == lp,
                        page_valid(d, lp),
                        end == clamp(lp + page_length(d, lp), d.len() as int),
                        lp + 27 <= d.len(),
                        last_in_chain(d, first, f.stream_len) == lp,
                    decreases d.len() - lp,
                {
                    proof {
                        lemma_segs_total_nonneg(d, lp, byte_at(d, lp + 26) as int);
                        lemma_page_search_found(d, end as int, f.stream_len);
                    }
                    set_file_offset(f, end);
                    match vorbis_find_page(f) {
                        None => {
                            assert(last_in_chain(d, lp, f.stream_len) == lp);
                            break;
                        },
                        Some((e, l)) => {
                            end = e;
                            last = l;
                            last_page_loc = stb_vorbis_get_file_offset(f);
                            proof { lp = f.pos as int; }
                        },
                    }
                }
                set_file_offset(f, last_page_loc);
                let _header = getn(f, 6);
                let ghost at6 = f.pos as int;
                let mut lo = get32(f);
                let ghost at10 = f.pos as int;
                let hi = get32(f);
                proof {
                    if lp + 6 <= d.len() {
                        assert(at6 == lp + 6);
                        if lp + 10 > d.len() {
                            crate::setup::lemma_le32_past_end(d, at10, lp + 10);
                        } else {
                            assert(at10 == lp + 10);
                        }
                    }
                }
                if lo == 0xffff_ffff && hi == 0xffff_ffff {
                    f.error = VorbisError::CantFindLastPage;
                    f.total_samples = SAMPLE_UNKNOWN;
                } else {
                    if hi != 0 {
                        lo = 0xffff_fffe;
                    }
                    f.total_samples = lo;
                    f.p_last = ProbedPage { page_start: last_page_loc, page_end: end, last_decoded_sample: lo };
                }
            },
        }
        set_file_offset(f, restore_offset);
    }
    if f.total_samples == SAMPLE_UNKNOWN { 0 } else { f.total_samples }
}

} // verus!
