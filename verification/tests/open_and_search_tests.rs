use lib::crc::{crc32_init, crc32_update};
use lib::decode::submap_channels;
use lib::open::{pushdata_start, stb_vorbis_open_pushdata, PushStart};
use lib::pushdata::{is_whole_packet_present, vorbis_search_for_page_pushdata};
use lib::seek::{stb_vorbis_stream_length_in_samples, vorbis_find_page};
use lib::types::{Mapping, MappingChannel, VorbisError};
use lib::vorbis::Vorbis;

/// An Ogg page with the given flags, granule position, segment table and
/// payload, and its CRC.
fn page(flag: u8, granule: u64, segments: &[u8], payload: &[u8]) -> Vec<u8> {
    let mut p: Vec<u8> = vec![b'O', b'g', b'g', b'S', 0, flag];
    p.extend_from_slice(&granule.to_le_bytes());
    p.extend_from_slice(&1u32.to_le_bytes());
    p.extend_from_slice(&7u32.to_le_bytes());
    p.extend_from_slice(&[0, 0, 0, 0]);
    p.push(segments.len() as u8);
    p.extend_from_slice(segments);
    p.extend_from_slice(payload);
    let table = crc32_init();
    let mut crc = 0u32;
    for &b in &p {
        crc = crc32_update(&table, crc, b);
    }
    p[22..26].copy_from_slice(&crc.to_le_bytes());
    p
}

#[test]
fn new_decoder_starts_empty() {
    let f = Vorbis::new(vec![1, 2, 3]);
    assert!(!f.eof);
    assert_eq!(f.error, VorbisError::NoError);
    assert_eq!(f.channels, 0);
    assert_eq!(f.sample_rate, 0);
    assert!(!f.push_mode);
    assert_eq!(f.page_crc_tests, -1);
    assert_eq!(f.previous_length, 0);
    assert_eq!(f.codebooks.len(), 0);
    assert_eq!(f.channel_buffer_start, 0);
    assert_eq!(f.channel_buffer_end, 0);
    assert_eq!(f.total_samples, 0);
}

#[test]
fn open_pushdata_of_a_capture_pattern_needs_more_data() {
    let mut used = 7;
    let mut err = VorbisError::NoError;
    assert!(stb_vorbis_open_pushdata(b"OggS".to_vec(), &mut used, &mut err).is_none());
    assert_eq!(err, VorbisError::NeedMoreData);
    assert_eq!(used, 7);
}

#[test]
fn open_pushdata_of_nothing_needs_more_data() {
    let mut used = 7;
    let mut err = VorbisError::NoError;
    assert!(stb_vorbis_open_pushdata(Vec::new(), &mut used, &mut err).is_none());
    assert_eq!(err, VorbisError::NeedMoreData);
    assert_eq!(used, 7);
}

#[test]
fn find_page_finds_nothing_in_garbage() {
    let data: Vec<u8> = (0..100u8).map(|i| i.wrapping_mul(3)).collect();
    let mut f = Vorbis::new(data);
    f.stream_len = 100;
    assert_eq!(vorbis_find_page(&mut f), None);
    assert!(f.eof);
}

#[test]
fn find_page_passes_over_a_page_cut_short() {
    // a page whose payload runs past the end of the data, then a valid page
    // inside what that page claims: the first fails its CRC and the search
    // goes on to the second (candidates in the first 25 bytes of a stream
    // are not looked at)
    let mut data = vec![1u8; 30];
    let mut cut = page(0, 10, &[200], &[5u8; 200]);
    cut.truncate(40);
    data.extend_from_slice(&cut);
    let second = data.len();
    data.extend_from_slice(&page(0, 20, &[2], &[1, 2]));
    let end = data.len();
    let mut f = Vorbis::new(data);
    f.stream_len = 1000;
    assert_eq!(vorbis_find_page(&mut f), Some((end as u32, false)));
    assert_eq!(f.pos, second);
}

#[test]
fn find_page_stops_where_a_header_runs_off_the_data() {
    let mut data = vec![1u8; 30];
    data.extend_from_slice(b"OggS");
    data.extend_from_slice(&[0u8; 10]);
    let mut f = Vorbis::new(data);
    f.stream_len = 1000;
    assert_eq!(vorbis_find_page(&mut f), None);
    assert!(f.eof);
}

#[test]
fn stream_length_with_a_zero_granule_is_the_same_when_asked_again() {
    let mut data = vec![9u8; 30];
    data.extend_from_slice(&page(4, 0, &[2], &[1, 2]));
    let len = data.len() as u32;
    let mut f = Vorbis::new(data);
    f.stream_len = len;
    assert_eq!(stb_vorbis_stream_length_in_samples(&mut f), 0);
    assert_eq!(f.total_samples, 0);
    assert_eq!(stb_vorbis_stream_length_in_samples(&mut f), 0);
}

#[test]
fn stream_length_uses_the_last_page_of_the_chain() {
    let mut data = vec![9u8; 30];
    data.extend_from_slice(&page(0, 100, &[1], &[1]));
    data.extend_from_slice(&page(0, 200, &[1], &[2]));
    data.extend_from_slice(&page(0, 300, &[1], &[3]));
    let len = data.len() as u32;
    let mut f = Vorbis::new(data);
    f.stream_len = len;
    assert_eq!(stb_vorbis_stream_length_in_samples(&mut f), 300);
    assert_eq!(stb_vorbis_stream_length_in_samples(&mut f), 300);
}

#[test]
fn search_in_pushed_data_finds_a_page_by_its_crc() {
    let mut data = vec![0x11u8; 10];
    let at = data.len();
    data.extend_from_slice(&page(0, 4321, &[3], &[7, 8, 9]));
    let page_end = data.len();
    data.extend_from_slice(&[0x22u8; 8]);
    let mut f = Vorbis::new(Vec::new());
    f.push_mode = true;
    f.page_crc_tests = 0;
    let used = vorbis_search_for_page_pushdata(&mut f, &data);
    assert_eq!(used as usize, page_end);
    assert_eq!(f.page_crc_tests, -1);
    assert!(f.current_loc_valid);
    assert_eq!(f.current_loc, 4321);
    assert_eq!(at, 10);
}

#[test]
fn submap_channels_picks_the_channels_of_a_submap() {
    let map = Mapping {
        coupling_steps: 0,
        chan: vec![
            MappingChannel { magnitude: 0, angle: 0, mux: 1 },
            MappingChannel { magnitude: 0, angle: 0, mux: 0 },
            MappingChannel { magnitude: 0, angle: 0, mux: 1 },
        ],
        submaps: 2,
        submap_floor: vec![0, 0],
        submap_residue: vec![0, 0],
    };
    let zero = vec![true, false, false];
    let (chans, skip) = submap_channels(&map, 1, 3, &zero);
    assert_eq!(chans, vec![0, 2]);
    assert_eq!(skip, vec![true, false]);
    let (chans0, skip0) = submap_channels(&map, 0, 3, &zero);
    assert_eq!(chans0, vec![1]);
    assert_eq!(skip0, vec![false]);
}

#[test]
fn whole_packet_over_two_pages() {
    let mut data = page(0, 0, &[255], &[7u8; 255]);
    data.extend_from_slice(&page(1, 0, &[10], &[8u8; 10]));
    let mut f = Vorbis::new(data.clone());
    f.push_mode = true;
    f.next_seg = -1;
    assert!(is_whole_packet_present(&mut f, false));
    assert_eq!(f.error, VorbisError::NoError);
    // the second page is not continued: refused
    let mut bad = page(0, 0, &[255], &[7u8; 255]);
    bad.extend_from_slice(&page(0, 0, &[10], &[8u8; 10]));
    let mut g = Vorbis::new(bad);
    g.push_mode = true;
    g.next_seg = -1;
    assert!(!is_whole_packet_present(&mut g, false));
    assert_eq!(g.error, VorbisError::InvalidStream);
    // the second page is cut short
    let cut = data[..data.len() - 3].to_vec();
    let mut h = Vorbis::new(cut);
    h.push_mode = true;
    h.next_seg = -1;
    assert!(!is_whole_packet_present(&mut h, false));
    assert_eq!(h.error, VorbisError::NeedMoreData);
}

#[test]
fn pushdata_start_decodes_a_whole_packet() {
    let block = page(0, 0, &[3], &[1, 2, 3]);
    let mut f = Vorbis::new(Vec::new());
    f.push_mode = true;
    f.next_seg = -1;
    match pushdata_start(&mut f, block.clone()) {
        PushStart::Decode => {}
        _ => panic!("the block holds the whole packet"),
    }
    let mut g = Vorbis::new(Vec::new());
    g.push_mode = true;
    g.next_seg = -1;
    match pushdata_start(&mut g, block[..20].to_vec()) {
        PushStart::NeedMoreData => {}
        _ => panic!("the block is cut inside the page header"),
    }
}
