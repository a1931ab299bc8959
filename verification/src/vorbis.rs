use vstd::prelude::*;
use vstd::arithmetic::power2::pow2;
use crate::crc::{crc_table_ok, crc32_init};
use crate::types::{Codebook, CRCscan, Floor, Mapping, Mode, ProbedPage, Residue, VorbisError};

verus! {

/// The most channels the decoder accepts.
pub const STB_VORBIS_MAX_CHANNELS: i32 = 16;

/// How many candidate pages are checked at once while resynchronising.
pub const STB_PUSHDATA_CRC_COUNT: i32 = 4;

/// The byte returned at the end of a packet.
pub const EOP: i32 = -1;

/// `valid_bits` once a read ran past the end of a packet.
pub const INVALID_BITS: i32 = -1;

/// The packet types of the three header packets.
pub const PACKET_ID: u8 = 1;
pub const PACKET_COMMENT: u8 = 3;
pub const PACKET_SETUP: u8 = 5;

pub const PAGEFLAG_CONTINUED_PACKET: u8 = 1;
pub const PAGEFLAG_FIRST_PAGE: u8 = 2;
pub const PAGEFLAG_LAST_PAGE: u8 = 4;

/// The decoder: the stream it reads, the setup it parsed, and where it
/// stands in the pages, packets and bits of the stream. The decoded
/// samples themselves are kept by the caller.
pub struct Vorbis {
    pub sample_rate: u32,
    pub channels: i32,

    /// The bytes of the stream (in push mode, the current block).
    pub data: Vec<u8>,
    /// The next byte to read.
    pub pos: usize,
    pub stream_len: u32,
    pub push_mode: bool,
    pub first_audio_page_offset: u32,
    pub p_first: ProbedPage,
    pub p_last: ProbedPage,

    pub eof: bool,
    pub error: VorbisError,

    pub blocksize_0: usize,
    pub blocksize_1: usize,
    pub codebook_count: i32,
    pub codebooks: Vec<Codebook>,
    pub floor_count: i32,
    pub floor_types: Vec<u16>,
    pub floor_config: Vec<Floor>,
    pub residue_count: i32,
    pub residue_types: Vec<u16>,
    pub residue_config: Vec<Residue>,
    pub mapping_count: i32,
    pub mapping: Vec<Mapping>,
    pub mode_count: i32,
    pub mode_config: Vec<Mode>,
    /// The most floor-1 values of any floor.
    pub longest_floorlist: i32,

    pub total_samples: u32,

    pub previous_length: i32,
    pub current_loc: u32,
    pub current_loc_valid: bool,

    pub last_page: i32,
    pub segment_count: i32,
    pub segments: Vec<u8>,
    pub page_flag: u8,
    pub bytes_in_seg: u8,
    pub first_decode: bool,
    pub next_seg: i32,
    pub last_seg: bool,
    pub last_seg_which: i32,
    pub acc: u32,
    pub valid_bits: i32,
    pub packet_bytes: i32,
    pub end_seg_with_known_loc: i32,
    pub known_loc_for_packet: u32,
    pub discard_samples_deferred: i32,
    pub samples_output: u32,

    pub page_crc_tests: i32,
    pub scan: Vec<CRCscan>,

    pub channel_buffer_start: i32,
    pub channel_buffer_end: i32,

    pub crc_table: Vec<u32>,
}

/// The byte at `i` of `d`, and 0 past its end.
pub open spec fn byte_at(d: Seq<u8>, i: int) -> u8 {
    if 0 <= i < d.len() { d[i] } else { 0 }
}

/// The little-endian 32-bit value of the four bytes at `i` (0 past the end).
pub open spec fn le32_at(d: Seq<u8>, i: int) -> u32 {
    (byte_at(d, i) as int + byte_at(d, i + 1) as int * 256 + byte_at(d, i + 2) as int * 65536
        + byte_at(d, i + 3) as int * 16777216) as u32
}

/// Where reading `k` bytes from `p` leaves the position.
pub open spec fn advance(p: int, k: int, len: int) -> int {
    if p + k <= len { p + k } else if p <= len { len } else { p }
}

impl Vorbis {
    /// The invariant of the decoder's stream state.
    pub open spec fn wf(&self) -> bool {
        &&& self.segments@.len() == 255
        &&& 0 <= self.segment_count <= 255
        &&& -1 <= self.next_seg < 255
        &&& crc_table_ok(self.crc_table@)
        &&& self.scan@.len() == STB_PUSHDATA_CRC_COUNT
        &&& -1 <= self.page_crc_tests <= STB_PUSHDATA_CRC_COUNT
        &&& -1 <= self.valid_bits <= 32
        &&& 0 < self.valid_bits < 32 ==> self.acc < pow2(self.valid_bits as nat)
        &&& self.pos <= self.data@.len()
        &&& self.data@.len() <= 0x7fff_0000
        &&& self.first_audio_page_offset <= 0x7fff_0000
    }

    /// `self` and `other` differ only in where they stand in the stream.
    pub open spec fn same_setup(&self, other: &Vorbis) -> bool {
        &&& self.sample_rate == other.sample_rate
        &&& self.channels == other.channels
        &&& self.data == other.data
        &&& self.stream_len == other.stream_len
        &&& self.push_mode == other.push_mode
        &&& self.blocksize_0 == other.blocksize_0
        &&& self.blocksize_1 == other.blocksize_1
        &&& self.codebook_count == other.codebook_count
        &&& self.codebooks == other.codebooks
        &&& self.floor_count == other.floor_count
        &&& self.floor_types == other.floor_types
        &&& self.floor_config == other.floor_config
        &&& self.residue_count == other.residue_count
        &&& self.residue_types == other.residue_types
        &&& self.residue_config == other.residue_config
        &&& self.mapping_count == other.mapping_count
        &&& self.mapping == other.mapping
        &&& self.mode_count == other.mode_count
        &&& self.mode_config == other.mode_config
        &&& self.crc_table == other.crc_table
        &&& self.first_audio_page_offset == other.first_audio_page_offset
    }

    /// A decoder with nothing read yet, reading `data`.
    pub fn new(data: Vec<u8>) -> (f: Vorbis)
        requires
            data@.len() <= 0x7fff_0000,
        ensures
            f.wf(),
            f.data@ == data@,
            f.pos == 0,
            !f.eof,
            f.error == VorbisError::NoError,
            f.page_crc_tests == -1,
            !f.push_mode,
            f.next_seg == 0,
            f.valid_bits == 0,
            f.codebooks@.len() == 0,
            f.channels == 0,
            f.sample_rate == 0,
            f.stream_len == 0,
            f.previous_length == 0,
            f.channel_buffer_start == 0,
            f.channel_buffer_end == 0,
            f.total_samples == 0,
            !f.current_loc_valid,
            !f.first_decode,
            f.codebook_count == 0,
            f.floor_count == 0,
            f.residue_count == 0,
            f.mapping_count == 0,
            f.mode_count == 0,
            f.segment_count == 0,
            f.bytes_in_seg == 0,
            !f.last_seg,
            f.samples_output == 0,
            f.discard_samples_deferred == 0,
            f.first_audio_page_offset == 0,
    {
        let mut segments: Vec<u8> = Vec::new();
        let mut i: usize = 0;
        while i < 255
            invariant
                i <= 255,
                segments@.len() == i,
            decreases 255 - i,
        {
            segments.push(0);
            i = i + 1;
        }
        let empty_scan = CRCscan { goal_crc: 0, bytes_left: 0, crc_so_far: 0, bytes_done: 0, sample_loc: 0 };
        let mut scan: Vec<CRCscan> = Vec::new();
        scan.push(empty_scan);
        scan.push(empty_scan);
        scan.push(empty_scan);
        scan.push(empty_scan);
        let page0 = ProbedPage { page_start: 0, page_end: 0, last_decoded_sample: 0 };
        Vorbis {
            sample_rate: 0,
            channels: 0,
            data,
            pos: 0,
            stream_len: 0,
            push_mode: false,
            first_audio_page_offset: 0,
            p_first: page0,
            p_last: page0,
            eof: false,
            error: VorbisError::NoError,
            blocksize_0: 0,
            blocksize_1: 0,
            codebook_count: 0,
            codebooks: Vec::new(),
            floor_count: 0,
            floor_types: Vec::new(),
            floor_config: Vec::new(),
            residue_count: 0,
            residue_types: Vec::new(),
            residue_config: Vec::new(),
            mapping_count: 0,
            mapping: Vec::new(),
            mode_count: 0,
            mode_config: Vec::new(),
            longest_floorlist: 0,
            total_samples: 0,
            previous_length: 0,
            current_loc: 0,
            current_loc_valid: false,
            last_page: 0,
            segment_count: 0,
            segments,
            page_flag: 0,
            bytes_in_seg: 0,
            first_decode: false,
            next_seg: 0,
            last_seg: false,
            last_seg_which: 0,
            acc: 0,
            valid_bits: 0,
            packet_bytes: 0,
            end_seg_with_known_loc: 0,
            known_loc_for_packet: 0,
            discard_samples_deferred: 0,
            samples_output: 0,
            page_crc_tests: -1,
            scan,
            channel_buffer_start: 0,
            channel_buffer_end: 0,
            crc_table: crc32_init(),
        }
    }
}

/// Records the error `e`; always false, so that a caller can return it.
pub fn error(f: &mut Vorbis, e: VorbisError) -> (r: bool)
    ensures
        !r,
        *final(f) == (Vorbis { error: e, ..*old(f) }),
        final(f).current_loc == old(f).current_loc && final(f).current_loc_valid == old(f).current_loc_valid,
{
    f.error = e;
    false
}

/// Reads the next byte of the stream; past the end, 0, and the end is flagged.
pub fn get8(z: &mut Vorbis) -> (r: u8)
    requires
        old(z).wf(),
    ensures
        r == byte_at(old(z).data@, old(z).pos as int),
        old(z).pos < old(z).data@.len() ==> *final(z) == (Vorbis { pos: (old(z).pos + 1) as usize, ..*old(z) }),
        old(z).pos >= old(z).data@.len() ==> *final(z) == (Vorbis { eof: true, ..*old(z) }),
        final(z).wf(),
{
    if z.pos >= z.data.len() {
        z.eof = true;
        return 0;
    }
    let c = z.data[z.pos];
    z.pos = z.pos + 1;
    c
}

/// Reads a little-endian 32-bit value.
pub fn get32(f: &mut Vorbis) -> (r: u32)
    requires
        old(f).wf(),
    ensures
        r == le32_at(old(f).data@, old(f).pos as int),
        *final(f) == (Vorbis { pos: advance(old(f).pos as int, 4, old(f).data@.len() as int) as usize,
            eof: old(f).eof || old(f).pos + 4 > old(f).data@.len(), ..*old(f) }),
        final(f).wf(),
{
    let b0 = get8(f);
    let b1 = get8(f);
    let b2 = get8(f);
    let b3 = get8(f);
    let x: u32 = (b0 as u32) | ((b1 as u32) << 8) | ((b2 as u32) << 16) | ((b3 as u32) << 24);
    assert(x == (b0 as int + b1 as int * 256 + b2 as int * 65536 + b3 as int * 16777216) as u32) by (bit_vector)
        requires x == (b0 as u32) | ((b1 as u32) << 8) | ((b2 as u32) << 16) | ((b3 as u32) << 24);
    x
}

/// Reads `n` bytes, or nothing (flagging the end) when fewer are left.
pub fn getn(z: &mut Vorbis, n: usize) -> (r: Option<Vec<u8>>)
    requires
        old(z).wf(),
    ensures
        old(z).pos + n > old(z).data@.len() ==> r is None && *final(z) == (Vorbis { eof: true, ..*old(z) }),
        old(z).pos + n <= old(z).data@.len() ==> r is Some
            && r->0@ == old(z).data@.subrange(old(z).pos as int, old(z).pos + n)
            && *final(z) == (Vorbis { pos: (old(z).pos + n) as usize, ..*old(z) }),
        final(z).wf(),
{
    if n > z.data.len() - z.pos {
        z.eof = true;
        return None;
    }
    let mut out: Vec<u8> = Vec::new();
    let mut i: usize = 0;
    while i < n
        invariant
            i <= n,
            z.pos + n <= z.data@.len(),
            z.data@.len() <= 0x7fff_0000,
            out@ == z.data@.subrange(z.pos as int, z.pos + i),
        decreases n - i,
    {
        out.push(z.data[z.pos + i]);
        i = i + 1;
    }
    z.pos = z.pos + n;
    Some(out)
}

/// Moves `n` bytes forward (backward when negative), stopping at the end
/// of the stream, which is then flagged.
pub fn skip(z: &mut Vorbis, n: i32)
    requires
        old(z).wf(),
        n < 0 ==> -n <= old(z).pos,
    ensures
        final(z).wf(),
        final(z).pos == (if old(z).pos + n > old(z).data@.len() { old(z).data@.len() as int } else { old(z).pos + n }),
        *final(z) == (Vorbis { pos: final(z).pos, eof: old(z).eof || final(z).pos >= old(z).data@.len(), ..*old(z) }),
        final(z).current_loc == old(z).current_loc && final(z).current_loc_valid == old(z).current_loc_valid,
{
    if n < 0 {
        z.pos = z.pos - ((-(n as i64)) as usize);
    } else if (n as usize) > z.data.len() - z.pos {
        z.pos = z.data.len();
    } else {
        z.pos = z.pos + n as usize;
    }
    if z.pos >= z.data.len() {
        z.eof = true;
    }
}

/// Reads the four bytes "OggS" that begin a page.
pub fn capture_pattern(f: &mut Vorbis) -> (r: bool)
    requires
        old(f).wf(),
    ensures
        final(f).wf(),
        final(f).same_setup(&*old(f)),
        r <==> (byte_at(old(f).data@, old(f).pos as int) == 0x4f && byte_at(old(f).data@, old(f).pos + 1) == 0x67
            && byte_at(old(f).data@, old(f).pos + 2) == 0x67 && byte_at(old(f).data@, old(f).pos + 3) == 0x53),
        r ==> final(f).pos == old(f).pos + 4,
        r ==> *final(f) == (Vorbis { pos: (old(f).pos + 4) as usize, ..*old(f) }),
        final(f).pos >= old(f).pos,
        old(f).pos < old(f).data@.len() ==> final(f).pos > old(f).pos,
        *final(f) == (Vorbis { pos: final(f).pos, eof: final(f).eof, ..*old(f) }),
        capture_cut(old(f).data@, old(f).pos as int) ==> !r && final(f).eof,
{
    if 0x4f != get8(f) { return false; }
    if 0x67 != get8(f) { return false; }
    if 0x67 != get8(f) { return false; }
    if 0x53 != get8(f) { return false; }
    true
}

/// The data ends less than four bytes after `p`, and what it holds from
/// `p` on begins the capture pattern "OggS".
pub open spec fn capture_cut(d: Seq<u8>, p: int) -> bool {
    &&& p + 4 > d.len()
    &&& p < d.len() ==> d[p] == 0x4f
    &&& p + 1 < d.len() ==> d[p + 1] == 0x67
    &&& p + 2 < d.len() ==> d[p + 2] == 0x67
}

/// Whether the file offset `loc` can be reached in a memory stream.
pub fn set_file_offset(f: &mut Vorbis, loc: u32) -> (r: bool)
    requires
        old(f).wf(),
    ensures
        final(f).wf(),
        old(f).push_mode ==> !r && *final(f) == *old(f),
        !old(f).push_mode && (loc as int) < old(f).data@.len() ==> r && *final(f) == (Vorbis { pos: loc as usize, eof: false, ..*old(f) }),
        !old(f).push_mode && (loc as int) >= old(f).data@.len() ==> !r && *final(f) == (Vorbis { pos: old(f).data@.len() as usize, eof: true, ..*old(f) }),
{
    if f.push_mode {
        return false;
    }
    f.eof = false;
    if (loc as usize) >= f.data.len() {
        f.pos = f.data.len();
        f.eof = true;
        return false;
    }
    f.pos = loc as usize;
    true
}

/// The offset of the next byte from the beginning of the stream; 0 in push mode.
pub fn stb_vorbis_get_file_offset(f: &Vorbis) -> (r: u32)
    requires
        f.wf(),
    ensures
        r == (if f.push_mode { 0 } else { f.pos as u32 }),
{
    if f.push_mode {
        return 0;
    }
    f.pos as u32
}

} // verus!
