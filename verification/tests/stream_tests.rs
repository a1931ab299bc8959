use lib::crc::{crc32_init, crc32_update};
use lib::decode::{stb_vorbis_get_error, stb_vorbis_get_info, vorbis_decode_initial};
use lib::ogg::{get8_packet, get_bits, start_packet, start_page};
use lib::open::{pushdata_failed, pushdata_start, stb_vorbis_open_memory, stb_vorbis_open_pushdata, PushStart};
use lib::pushdata::{is_whole_packet_present, vorbis_search_for_page_pushdata};
use lib::seek::{get_seek_page_info, go_to_page_before, stb_vorbis_stream_length_in_samples, vorbis_find_page};
use lib::setup::start_decoder;
use lib::types::VorbisError;
use lib::vorbis::{get32, get8, getn, skip, stb_vorbis_get_file_offset, Vorbis, EOP};

/// An Ogg page with the given flags, granule position, sequence number,
/// segment table and payload, and its CRC.
fn ogg_page(flag: u8, granule: u64, seq: u32, segments: &[u8], payload: &[u8]) -> Vec<u8> {
    let mut p: Vec<u8> = vec![b'O', b'g', b'g', b'S', 0, flag];
    p.extend_from_slice(&granule.to_le_bytes());
    p.extend_from_slice(&1u32.to_le_bytes());
    p.extend_from_slice(&seq.to_le_bytes());
    p.extend_from_slice(&[0, 0, 0, 0]);
    p.push(segments.len() as u8);
    p.extend_from_slice(segments);
    p.extend_from_slice(payload);
    let table = crc32_init();
    let mut crc = 0u32;
    for &b in &p {
        crc = crc32_update(&table, crc, b);
    }
    p[22..26].copy_from_slice(&crc.to_le_bytes());
    p
}

/// Writes bits first bit lowest, as Vorbis packets hold them.
struct BitWriter {
    bytes: Vec<u8>,
    used: u32,
}

impl BitWriter {
    fn new() -> BitWriter {
        BitWriter { bytes: Vec::new(), used: 8 }
    }

    fn put(&mut self, value: u32, bits: u32) {
        for i in 0..bits {
            if self.used == 8 {
                self.bytes.push(0);
                self.used = 0;
            }
            let bit = ((value >> i) & 1) as u8;
            let last = self.bytes.len() - 1;
            self.bytes[last] |= bit << self.used;
            self.used += 1;
        }
    }
}

fn ident_packet(channels: u8, rate: u32, blocksizes: u8) -> Vec<u8> {
    let mut p: Vec<u8> = vec![1];
    p.extend_from_slice(b"vorbis");
    p.extend_from_slice(&0u32.to_le_bytes());
    p.push(channels);
    p.extend_from_slice(&rate.to_le_bytes());
    p.extend_from_slice(&[0u8; 12]);
    p.push(blocksizes);
    p.push(1);
    p
}

fn comment_packet() -> Vec<u8> {
    let mut p: Vec<u8> = vec![3];
    p.extend_from_slice(b"vorbis");
    p.extend_from_slice(&0u32.to_le_bytes());
    p.extend_from_slice(&0u32.to_le_bytes());
    p.push(1);
    p
}

/// A small setup header: one codebook of two one-bit codes, one floor of
/// type 1 without partitions, one residue of type 0, one mapping and one
/// short-block mode.
fn setup_packet() -> Vec<u8> {
    let mut w = BitWriter::new();
    w.put(5, 8);
    for &b in b"vorbis" {
        w.put(b as u32, 8);
    }
    // codebooks
    w.put(0, 8);
    w.put(0x42, 8);
    w.put(0x43, 8);
    w.put(0x56, 8);
    w.put(1, 16);
    w.put(2, 24);
    w.put(0, 1);
    w.put(0, 1);
    w.put(0, 5);
    w.put(0, 5);
    w.put(0, 4);
    // time domain transforms
    w.put(0, 6);
    w.put(0, 16);
    // floors
    w.put(0, 6);
    w.put(1, 16);
    w.put(0, 5);
    w.put(0, 2);
    w.put(4, 4);
    // residues
    w.put(0, 6);
    w.put(0, 16);
    w.put(0, 24);
    w.put(0, 24);
    w.put(0, 24);
    w.put(0, 6);
    w.put(0, 8);
    w.put(0, 3);
    w.put(0, 1);
    // mappings
    w.put(0, 6);
    w.put(0, 16);
    w.put(0, 1);
    w.put(0, 1);
    w.put(0, 2);
    w.put(0, 8);
    w.put(0, 8);
    w.put(0, 8);
    // modes
    w.put(0, 6);
    w.put(0, 1);
    w.put(0, 16);
    w.put(0, 16);
    w.put(0, 8);
    // framing
    w.put(1, 1);
    w.bytes
}

/// The two header pages of a small mono stream.
fn header_pages() -> (Vec<u8>, usize) {
    let ident = ident_packet(1, 44100, 0xb8);
    let comment = comment_packet();
    let setup = setup_packet();
    let mut data = ogg_page(2, 0, 0, &[30], &ident);
    let mut payload = comment.clone();
    payload.extend_from_slice(&setup);
    let page2 = ogg_page(0, 0, 1, &[comment.len() as u8, setup.len() as u8], &payload);
    data.extend_from_slice(&page2);
    let len = data.len();
    (data, len)
}

#[test]
fn start_decoder_reads_headers() {
    let (data, len) = header_pages();
    let mut f = Vorbis::new(data);
    f.stream_len = len as u32;
    assert!(start_decoder(&mut f));
    assert_eq!(f.channels, 1);
    assert_eq!(f.sample_rate, 44100);
    assert_eq!(f.blocksize_0, 256);
    assert_eq!(f.blocksize_1, 2048);
    assert_eq!(f.codebook_count, 1);
    assert_eq!(f.codebooks[0].entries, 2);
    assert_eq!(f.codebooks[0].codewords, vec![0, 1]);
    assert_eq!(f.floor_count, 1);
    assert_eq!(f.floor_config[0].floor1.xlist, vec![0, 16]);
    assert_eq!(f.floor_config[0].floor1.values, 2);
    assert_eq!(f.residue_count, 1);
    assert_eq!(f.residue_config[0].classdata, vec![vec![0u8], vec![0u8]]);
    assert_eq!(f.mapping_count, 1);
    assert_eq!(f.mapping[0].chan.len(), 1);
    assert_eq!(f.mode_count, 1);
    assert!(f.first_decode);
    assert_eq!(f.first_audio_page_offset as usize, len);
    let info = stb_vorbis_get_info(&f);
    assert_eq!(info.channels, 1);
    assert_eq!(info.sample_rate, 44100);
    assert_eq!(info.max_frame_size, 1024);
}

#[test]
fn start_decoder_refuses_missing_capture_pattern() {
    let (mut data, _) = header_pages();
    data[0] = b'X';
    let mut f = Vorbis::new(data);
    assert!(!start_decoder(&mut f));
    assert_eq!(f.error, VorbisError::MissingCapturePattern);
}

#[test]
fn start_decoder_refuses_too_many_channels() {
    let ident = ident_packet(17, 44100, 0xb8);
    let data = ogg_page(2, 0, 0, &[30], &ident);
    let mut f = Vorbis::new(data);
    assert!(!start_decoder(&mut f));
    assert_eq!(f.error, VorbisError::TooManyChannels);
}

#[test]
fn start_decoder_refuses_bad_block_sizes() {
    let ident = ident_packet(2, 44100, 0x8b);
    let data = ogg_page(2, 0, 0, &[30], &ident);
    let mut f = Vorbis::new(data);
    assert!(!start_decoder(&mut f));
    assert_eq!(f.error, VorbisError::InvalidSetup);
}

#[test]
fn start_decoder_refuses_a_stream_that_stops_after_the_identification_page() {
    let ident = ident_packet(2, 44100, 0xb8);
    let data = ogg_page(2, 0, 0, &[30], &ident);
    let mut f = Vorbis::new(data);
    assert!(!start_decoder(&mut f));
    assert_eq!(f.error, VorbisError::MissingCapturePattern);
}

#[test]
fn start_decoder_refuses_non_first_page() {
    let ident = ident_packet(2, 44100, 0xb8);
    let data = ogg_page(0, 0, 0, &[30], &ident);
    let mut f = Vorbis::new(data);
    assert!(!start_decoder(&mut f));
    assert_eq!(f.error, VorbisError::InvalidFirstPage);
}

#[test]
fn start_decoder_refuses_floor_type_0() {
    let ident = ident_packet(1, 8000, 0xb8);
    let comment = comment_packet();
    // a setup header whose floor has type 0, with the fields of that type
    let mut w = BitWriter::new();
    w.put(5, 8);
    for &b in b"vorbis" {
        w.put(b as u32, 8);
    }
    w.put(0, 8);
    w.put(0x42, 8);
    w.put(0x43, 8);
    w.put(0x56, 8);
    w.put(1, 16);
    w.put(2, 24);
    w.put(0, 1);
    w.put(0, 1);
    w.put(0, 5);
    w.put(0, 5);
    w.put(0, 4);
    w.put(0, 6);
    w.put(0, 16);
    w.put(0, 6);
    w.put(0, 16);
    w.put(0, 8);
    w.put(0, 16);
    w.put(0, 16);
    w.put(0, 6);
    w.put(0, 8);
    w.put(0, 4);
    w.put(0, 8);
    let setup = w.bytes;
    let mut data = ogg_page(2, 0, 0, &[30], &ident);
    let mut payload = comment.clone();
    payload.extend_from_slice(&setup);
    data.extend_from_slice(&ogg_page(0, 0, 1, &[comment.len() as u8, setup.len() as u8], &payload));
    let mut f = Vorbis::new(data);
    assert!(!start_decoder(&mut f));
    assert_eq!(f.error, VorbisError::FeatureNotSupported);
}

#[test]
fn open_memory_reads_headers() {
    let (data, len) = header_pages();
    let mut err = VorbisError::NoError;
    let v = stb_vorbis_open_memory(&data, &mut err).expect("headers are valid");
    assert_eq!(err, VorbisError::NoError);
    assert_eq!(v.stream_len as usize, len);
    assert!(!v.push_mode);
}

#[test]
fn open_memory_of_nothing() {
    let mut err = VorbisError::NoError;
    assert!(stb_vorbis_open_memory(&[], &mut err).is_none());
    assert_eq!(err, VorbisError::UnexpectedEof);
}

#[test]
fn open_memory_reports_the_error() {
    let (mut data, _) = header_pages();
    data[4] = 1;
    let mut err = VorbisError::NoError;
    assert!(stb_vorbis_open_memory(&data, &mut err).is_none());
    assert_eq!(err, VorbisError::InvalidStreamStructureVersion);
}

#[test]
fn open_pushdata_reads_headers() {
    let (data, len) = header_pages();
    let mut used = -1;
    let mut err = VorbisError::SeekFailed;
    let v = stb_vorbis_open_pushdata(data, &mut used, &mut err).expect("headers are valid");
    assert!(v.push_mode);
    assert_eq!(used as usize, len);
    assert_eq!(err, VorbisError::NoError);
}

#[test]
fn open_pushdata_needs_more_data() {
    let (data, _) = header_pages();
    let short = data[..70].to_vec();
    let mut used = -7;
    let mut err = VorbisError::NoError;
    assert!(stb_vorbis_open_pushdata(short, &mut used, &mut err).is_none());
    assert_eq!(err, VorbisError::NeedMoreData);
    assert_eq!(used, -7);
}

#[test]
fn page_and_bit_reading() {
    let payload = [0b1010_1100u8, 0xff, 0x01, 0x80];
    let data = ogg_page(0, 0, 0, &[4], &payload);
    let mut f = Vorbis::new(data);
    assert!(start_page(&mut f));
    assert_eq!(f.segment_count, 1);
    assert_eq!(f.segments[0], 4);
    assert_eq!(f.pos, 28);
    assert!(start_packet(&mut f));
    assert_eq!(get_bits(&mut f, 2), 0b00);
    assert_eq!(get_bits(&mut f, 3), 0b011);
    assert_eq!(get_bits(&mut f, 3), 0b101);
    assert_eq!(get_bits(&mut f, 12), 0x1ff);
    assert_eq!(get_bits(&mut f, 12), 0x800);
    // past the end of the packet
    assert_eq!(get_bits(&mut f, 4), 0);
    assert_eq!(get8_packet(&mut f), EOP);
}

#[test]
fn stream_bytes() {
    let mut f = Vorbis::new(vec![1, 2, 3, 4, 5, 6, 7]);
    assert_eq!(get8(&mut f), 1);
    assert_eq!(get32(&mut f), 0x0504_0302);
    assert_eq!(stb_vorbis_get_file_offset(&f), 5);
    assert_eq!(getn(&mut f, 3), None);
    assert!(f.eof);
    skip(&mut f, -3);
    assert_eq!(f.pos, 2);
    assert_eq!(getn(&mut f, 2), Some(vec![3, 4]));
    skip(&mut f, 100);
    assert_eq!(f.pos, 7);
    assert_eq!(get8(&mut f), 0);
}

#[test]
fn get_error_clears_the_error() {
    let mut f = Vorbis::new(vec![]);
    f.error = VorbisError::SeekFailed;
    assert_eq!(stb_vorbis_get_error(&mut f), VorbisError::SeekFailed);
    assert_eq!(stb_vorbis_get_error(&mut f), VorbisError::NoError);
}

/// A stream of 40 garbage bytes, then a page, then a last page.
fn stream_with_pages() -> (Vec<u8>, usize, usize, usize) {
    let mut data: Vec<u8> = (0..40u8).map(|i| i.wrapping_mul(7).wrapping_add(3)).collect();
    data[30] = b'O';
    let first = data.len();
    data.extend_from_slice(&ogg_page(0, 1000, 2, &[10], &[9u8; 10]));
    let second = data.len();
    data.extend_from_slice(&ogg_page(4, 5000, 3, &[3], &[1, 2, 3]));
    let end = data.len();
    (data, first, second, end)
}

#[test]
fn find_page_stops_at_the_next_valid_page() {
    let (data, first, second, end) = stream_with_pages();
    let mut f = Vorbis::new(data);
    f.stream_len = end as u32;
    assert_eq!(vorbis_find_page(&mut f), Some((second as u32, false)));
    assert_eq!(f.pos, first);
    f.pos = first + 1;
    assert_eq!(vorbis_find_page(&mut f), Some((end as u32, true)));
    assert_eq!(f.pos, second);
    f.pos = second + 1;
    assert_eq!(vorbis_find_page(&mut f), None);
}

#[test]
fn find_page_skips_a_page_with_a_bad_crc() {
    let (mut data, _first, second, end) = stream_with_pages();
    data[second - 1] ^= 0x55;
    let mut f = Vorbis::new(data);
    f.stream_len = end as u32;
    assert_eq!(vorbis_find_page(&mut f), Some((end as u32, true)));
    assert_eq!(f.pos, second);
}

#[test]
fn seek_page_info_reads_the_header() {
    let (data, first, second, end) = stream_with_pages();
    let mut f = Vorbis::new(data);
    f.stream_len = end as u32;
    f.pos = first;
    let z = get_seek_page_info(&mut f).expect("a page starts here");
    assert_eq!(z.page_start as usize, first);
    assert_eq!(z.page_end as usize, second);
    assert_eq!(z.last_decoded_sample, 1000);
    assert_eq!(f.pos, first);
}

#[test]
fn go_to_page_before_a_limit() {
    let (data, first, second, end) = stream_with_pages();
    let mut f = Vorbis::new(data);
    f.stream_len = end as u32;
    assert!(go_to_page_before(&mut f, (second - 3) as u32));
    assert_eq!(f.pos, first);
    assert!(go_to_page_before(&mut f, (end - 1) as u32));
    assert_eq!(f.pos, second);
}

#[test]
fn stream_length_from_the_last_page() {
    let (data, _first, second, end) = stream_with_pages();
    let mut f = Vorbis::new(data);
    f.stream_len = end as u32;
    f.pos = 5;
    assert_eq!(stb_vorbis_stream_length_in_samples(&mut f), 5000);
    assert_eq!(f.total_samples, 5000);
    assert_eq!(f.p_last.page_start as usize, second);
    assert_eq!(f.p_last.page_end as usize, end);
    assert_eq!(f.pos, 5);
    // kept for later calls
    assert_eq!(stb_vorbis_stream_length_in_samples(&mut f), 5000);
}

#[test]
fn stream_length_in_push_mode_is_an_error() {
    let mut f = Vorbis::new(vec![0; 10]);
    f.push_mode = true;
    assert_eq!(stb_vorbis_stream_length_in_samples(&mut f), 0);
    assert_eq!(f.error, VorbisError::InvalidApiMixing);
}

#[test]
fn whole_packet_present_checks() {
    let data = ogg_page(0, 0, 0, &[255, 10], &[7u8; 265]);
    let mut f = Vorbis::new(data.clone());
    f.push_mode = true;
    f.next_seg = -1;
    assert!(is_whole_packet_present(&mut f, false));
    // a block cut inside the packet
    let mut g = Vorbis::new(data[..100].to_vec());
    g.push_mode = true;
    g.next_seg = -1;
    assert!(!is_whole_packet_present(&mut g, false));
    assert_eq!(g.error, VorbisError::NeedMoreData);
}

#[test]
fn search_for_page_in_pushed_data() {
    let page = ogg_page(0, 777, 5, &[4], &[1, 2, 3, 4]);
    let mut block: Vec<u8> = vec![0x11; 9];
    block.extend_from_slice(&page);
    block.extend_from_slice(&[0u8; 8]);
    let mut f = Vorbis::new(vec![]);
    f.push_mode = true;
    f.page_crc_tests = 0;
    let used = vorbis_search_for_page_pushdata(&mut f, &block);
    assert_eq!(used as usize, 9 + page.len());
    assert_eq!(f.page_crc_tests, -1);
    assert_eq!(f.next_seg, -1);
    assert!(f.current_loc_valid);
    assert_eq!(f.current_loc, 777);
}

#[test]
fn search_for_page_with_too_little_data() {
    let mut f = Vorbis::new(vec![]);
    f.page_crc_tests = 0;
    assert_eq!(vorbis_search_for_page_pushdata(&mut f, &vec![b'O', b'g', b'g']), 0);
}

#[test]
fn pushdata_start_refuses_pull_mode() {
    let mut f = Vorbis::new(vec![1, 2, 3]);
    match pushdata_start(&mut f, vec![]) {
        PushStart::Refused => {}
        _ => panic!("a pull-mode decoder refuses pushed data"),
    }
    assert_eq!(f.error, VorbisError::InvalidApiMixing);
}

#[test]
fn pushdata_failure_handling() {
    let mut f = Vorbis::new(vec![]);
    f.push_mode = true;
    f.error = VorbisError::InvalidStream;
    f.previous_length = 5;
    assert_eq!(pushdata_failed(&mut f), 1);
    assert_eq!(f.error, VorbisError::InvalidStream);
    assert_eq!(f.page_crc_tests, 0);
    assert_eq!(f.previous_length, 0);
}

#[test]
fn decode_initial_reads_mode_and_window() {
    let (mut data, len) = header_pages();
    // an audio packet: type bit 0, then (one mode) no mode bits
    data.extend_from_slice(&ogg_page(0, 0, 2, &[1], &[0]));
    let mut f = Vorbis::new(data);
    f.stream_len = (len + 29) as u32;
    assert!(start_decoder(&mut f));
    let (mode, ls, le, rs, re) = vorbis_decode_initial(&mut f).expect("an audio packet");
    assert_eq!(mode, 0);
    assert_eq!((ls, le, rs, re), (0, 128, 128, 256));
}
