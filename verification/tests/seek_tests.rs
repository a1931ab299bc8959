use lib::crc::{crc32_init, crc32_update};
use lib::ogg::start_page;
use lib::seek_sample::{seek_frame_step, seek_probe_at, seek_to_sample_coarse, FrameSeek, SeekStep};
use lib::setup::start_decoder;
use lib::types::VorbisError;
use lib::vorbis::Vorbis;

/// An Ogg page with the given flags, granule position, sequence number,
/// segment table and payload, and its CRC.
fn ogg_page(flag: u8, granule: u64, seq: u32, segments: &[u8], payload: &[u8]) -> Vec<u8> {
    let mut p: Vec<u8> = vec![b'O', b'g', b'g', b'S', 0, flag];
    p.extend_from_slice(&granule.to_le_bytes());
    p.extend_from_slice(&1u32.to_le_bytes());
    p.extend_from_slice(&seq.to_le_bytes());
    p.extend_from_slice(&[0, 0, 0, 0]);
    p.push(segments.len() as u8);
    p.extend_from_slice(segments);
    p.extend_from_slice(payload);
    let table = crc32_init();
    let mut crc = 0u32;
    for &b in &p {
        crc = crc32_update(&table, crc, b);
    }
    p[22..26].copy_from_slice(&crc.to_le_bytes());
    p
}

/// Writes bits first bit lowest, as Vorbis packets hold them.
struct BitWriter {
    bytes: Vec<u8>,
    used: u32,
}

impl BitWriter {
    fn new() -> BitWriter {
        BitWriter { bytes: Vec::new(), used: 8 }
    }

    fn put(&mut self, value: u32, bits: u32) {
        for i in 0..bits {
            if self.used == 8 {
                self.bytes.push(0);
                self.used = 0;
            }
            let bit = ((value >> i) & 1) as u8;
            let last = self.bytes.len() - 1;
            self.bytes[last] |= bit << self.used;
            self.used += 1;
        }
    }
}

fn ident_packet(channels: u8, rate: u32, blocksizes: u8) -> Vec<u8> {
    let mut p: Vec<u8> = vec![1];
    p.extend_from_slice(b"vorbis");
    p.extend_from_slice(&0u32.to_le_bytes());
    p.push(channels);
    p.extend_from_slice(&rate.to_le_bytes());
    p.extend_from_slice(&[0u8; 12]);
    p.push(blocksizes);
    p.push(1);
    p
}

fn comment_packet() -> Vec<u8> {
    let mut p: Vec<u8> = vec![3];
    p.extend_from_slice(b"vorbis");
    p.extend_from_slice(&0u32.to_le_bytes());
    p.extend_from_slice(&0u32.to_le_bytes());
    p.push(1);
    p
}

/// A small setup header: one codebook of two one-bit codes, one floor of
/// type 1 without partitions, one residue of type 0, one mapping and one
/// short-block mode.
fn setup_packet() -> Vec<u8> {
    let mut w = BitWriter::new();
    w.put(5, 8);
    for &b in b"vorbis" {
        w.put(b as u32, 8);
    }
    // codebooks
    w.put(0, 8);
    w.put(0x42, 8);
    w.put(0x43, 8);
    w.put(0x56, 8);
    w.put(1, 16);
    w.put(2, 24);
    w.put(0, 1);
    w.put(0, 1);
    w.put(0, 5);
    w.put(0, 5);
    w.put(0, 4);
    // time domain transforms
    w.put(0, 6);
    w.put(0, 16);
    // floors
    w.put(0, 6);
    w.put(1, 16);
    w.put(0, 5);
    w.put(0, 2);
    w.put(4, 4);
    // residues
    w.put(0, 6);
    w.put(0, 16);
    w.put(0, 24);
    w.put(0, 24);
    w.put(0, 24);
    w.put(0, 6);
    w.put(0, 8);
    w.put(0, 3);
    w.put(0, 1);
    // mappings
    w.put(0, 6);
    w.put(0, 16);
    w.put(0, 1);
    w.put(0, 1);
    w.put(0, 2);
    w.put(0, 8);
    w.put(0, 8);
    w.put(0, 8);
    // modes
    w.put(0, 6);
    w.put(0, 1);
    w.put(0, 16);
    w.put(0, 16);
    w.put(0, 8);
    // framing
    w.put(1, 1);
    w.bytes
}

/// The two header pages of a small mono stream.
fn header_pages() -> (Vec<u8>, usize) {
    let ident = ident_packet(1, 44100, 0xb8);
    let comment = comment_packet();
    let setup = setup_packet();
    let mut data = ogg_page(2, 0, 0, &[30], &ident);
    let mut payload = comment.clone();
    payload.extend_from_slice(&setup);
    let page2 = ogg_page(0, 0, 1, &[comment.len() as u8, setup.len() as u8], &payload);
    data.extend_from_slice(&page2);
    let len = data.len();
    (data, len)
}

/// A decoder over the header pages and the audio pages given (flag,
/// granule position, payload length), standing after the first audio
/// page's header; also gives where each audio page starts.
fn seek_decoder(pages: &[(u8, u64, usize)]) -> (Vorbis, Vec<usize>) {
    let (mut data, _) = header_pages();
    let mut starts = Vec::new();
    for (k, &(flag, granule, len)) in pages.iter().enumerate() {
        starts.push(data.len());
        let mut segments = vec![255u8; len / 255];
        segments.push((len % 255) as u8);
        data.extend_from_slice(&ogg_page(flag, granule, 2 + k as u32, &segments, &vec![0u8; len]));
    }
    starts.push(data.len());
    let len = data.len();
    let mut f = Vorbis::new(data);
    f.stream_len = len as u32;
    assert!(start_decoder(&mut f));
    if !pages.is_empty() {
        assert!(start_page(&mut f));
    }
    (f, starts)
}

#[test]
fn coarse_seek_without_length() {
    let (mut f, _) = seek_decoder(&[]);
    assert_eq!(seek_to_sample_coarse(&mut f, 10), SeekStep::Failed(false));
    assert_eq!(f.error, VorbisError::SeekWithoutLength);
}

#[test]
fn coarse_seek_past_the_end() {
    let (mut f, _) = seek_decoder(&[(0, 1000, 10), (4, 5000, 10)]);
    assert_eq!(seek_to_sample_coarse(&mut f, 6000), SeekStep::Failed(false));
    assert_eq!(f.error, VorbisError::SeekInvalid);
    assert_eq!(f.total_samples, 5000);
}

#[test]
fn coarse_seek_to_the_first_frames_rewinds() {
    let (mut f, starts) = seek_decoder(&[(0, 1000, 10), (4, 5000, 10)]);
    assert_eq!(f.p_first.last_decoded_sample, 1000);
    // 1400 less the padding of (2048 - 256) / 4 = 448 lies before 1000
    assert_eq!(seek_to_sample_coarse(&mut f, 1400), SeekStep::Rewound);
    assert_eq!(f.pos, starts[0]);
    assert!(f.first_decode);
    assert_eq!(f.next_seg, -1);
}

#[test]
fn coarse_seek_finds_the_packet_between_two_pages() {
    let (mut f, starts) = seek_decoder(&[(0, 1000, 10), (4, 5000, 10)]);
    assert_eq!(seek_to_sample_coarse(&mut f, 3000), SeekStep::Found);
    // the first page's only packet: decoding starts on its first segment
    assert_eq!(f.next_seg, 0);
    assert_eq!(f.pos, starts[0] + 28);
    assert!(!f.current_loc_valid);
    assert_eq!(f.valid_bits, 0);
}

#[test]
fn coarse_seek_asks_for_a_probe_over_a_long_range() {
    let pages = [(0u8, 1000u64, 10usize), (0, 3000, 60000), (0, 6000, 60000), (4, 9000, 10)];
    let (mut f, starts) = seek_decoder(&pages);
    let s = match seek_to_sample_coarse(&mut f, 5000) {
        SeekStep::Probe(s) => s,
        other => panic!("expected a probe, got {:?}", other),
    };
    assert_eq!(s.left.page_start as usize, starts[0]);
    assert_eq!(s.right.page_start as usize, starts[3]);
    assert_eq!(s.target, 5000 - 448);
    assert_eq!(s.probe, 0);
    // probing at the end of the left page finds the second page (3000),
    // then the third (6000) bounds the target: the packet ends the second
    let r = seek_probe_at(&mut f, s, 0);
    assert_eq!(r, SeekStep::Found);
    let second_header = 27 + 60000 / 255 + 1;
    assert_eq!(f.pos, starts[1] + second_header);
}

#[test]
fn frame_step_needs_a_known_position() {
    let (mut f, _) = seek_decoder(&[(0, 1000, 10), (4, 5000, 10)]);
    f.current_loc_valid = false;
    assert_eq!(seek_frame_step(&mut f, 100), FrameSeek::Failed);
    assert_eq!(f.error, VorbisError::SeekFailed);
    f.error = VorbisError::NoError;
    f.current_loc_valid = true;
    f.current_loc = 200;
    assert_eq!(seek_frame_step(&mut f, 100), FrameSeek::Failed);
    assert_eq!(f.error, VorbisError::SeekFailed);
}

#[test]
fn frame_step_at_the_target_is_done() {
    let (mut f, _) = seek_decoder(&[(0, 1000, 10), (4, 5000, 10)]);
    f.current_loc_valid = true;
    f.current_loc = 100;
    let pos = f.pos;
    assert_eq!(seek_frame_step(&mut f, 100), FrameSeek::Done);
    assert_eq!(f.pos, pos);
}
