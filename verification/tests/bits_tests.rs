use lib::bits::{bit_reverse, compute_bitreverse, ilog, lookup1_values, neighbors, predict_point, vorbis_validate};
use lib::crc::{crc32_init, crc32_update};

#[test]
fn bit_reverse_examples() {
    assert_eq!(bit_reverse(0), 0);
    assert_eq!(bit_reverse(1), 0x8000_0000);
    assert_eq!(bit_reverse(0x8000_0000), 1);
    assert_eq!(bit_reverse(0x0000_00f0), 0x0f00_0000);
    assert_eq!(bit_reverse(0x1234_5678), 0x1e6a_2c48);
}

#[test]
fn bit_reverse_twice_is_identity() {
    for &n in &[0u32, 1, 2, 3, 0xdead_beef, 0xffff_ffff, 0x8000_0001, 12345] {
        assert_eq!(bit_reverse(bit_reverse(n)), n);
    }
}

#[test]
fn ilog_examples() {
    assert_eq!(ilog(0), 0);
    assert_eq!(ilog(-5), 0);
    assert_eq!(ilog(1), 1);
    assert_eq!(ilog(2), 2);
    assert_eq!(ilog(3), 2);
    assert_eq!(ilog(4), 3);
    assert_eq!(ilog(7), 3);
    assert_eq!(ilog(255), 8);
    assert_eq!(ilog(256), 9);
    assert_eq!(ilog(0x7fff_ffff), 31);
}

#[test]
fn lookup1_values_examples() {
    assert_eq!(lookup1_values(0, 1), 0);
    assert_eq!(lookup1_values(10, 1), 10);
    assert_eq!(lookup1_values(81, 2), 9);
    assert_eq!(lookup1_values(80, 2), 8);
    assert_eq!(lookup1_values(82, 2), 9);
    assert_eq!(lookup1_values(1000, 3), 10);
    assert_eq!(lookup1_values(999, 3), 9);
    assert_eq!(lookup1_values(1, 8), 1);
}

#[test]
fn compute_bitreverse_examples() {
    let mut rev: Vec<u16> = vec![0; 8];
    compute_bitreverse(64, &mut rev);
    assert_eq!(rev.len(), 8);
    // 3-bit reversals of 0..8, shifted left by 2
    let expected: Vec<u16> = [0u16, 4, 2, 6, 1, 5, 3, 7].iter().map(|v| v << 2).collect();
    assert_eq!(rev, expected);
}

#[test]
fn predict_point_examples() {
    // rising line from (0, 10) to (10, 20)
    assert_eq!(predict_point(5, 0, 10, 10, 20), 15);
    assert_eq!(predict_point(0, 0, 10, 10, 20), 10);
    assert_eq!(predict_point(10, 0, 10, 10, 20), 20);
    // the offset is rounded toward y0
    assert_eq!(predict_point(1, 0, 3, 0, 2), 0);
    assert_eq!(predict_point(2, 0, 3, 0, 2), 1);
    // falling line
    assert_eq!(predict_point(1, 0, 3, 2, 0), 2);
    assert_eq!(predict_point(2, 0, 3, 2, 0), 1);
}

#[test]
fn predict_point_outside_the_floor_range() {
    assert_eq!(predict_point(5, 0, 10, 0, 7), 3);
    assert_eq!(predict_point(5, 0, 10, 7, 0), 4);
    // a negative start
    assert_eq!(predict_point(-5, -10, 0, 0, 10), 5);
    // past the right end the line goes on
    assert_eq!(predict_point(12, 0, 10, 0, 10), 12);
    // a negative offset is rounded toward zero, as Rust divides
    assert_eq!(predict_point(-1, 0, 2, 0, 5), -2);
}

#[test]
fn neighbors_examples() {
    let x: Vec<u16> = vec![0, 128, 64, 32, 96];
    let mut low = 0;
    let mut high = 0;
    neighbors(&x, 2, &mut low, &mut high);
    assert_eq!((low, high), (0, 1));
    neighbors(&x, 3, &mut low, &mut high);
    assert_eq!((low, high), (0, 2));
    neighbors(&x, 4, &mut low, &mut high);
    assert_eq!((low, high), (2, 1));
}

#[test]
fn neighbors_leaves_outputs_without_candidates() {
    let x: Vec<u16> = vec![5, 5, 5];
    let mut low = 7;
    let mut high = 9;
    neighbors(&x, 2, &mut low, &mut high);
    assert_eq!((low, high), (7, 9));
}

#[test]
fn vorbis_validate_examples() {
    assert!(vorbis_validate(b"vorbis"));
    assert!(!vorbis_validate(b"vorbiz"));
    assert!(!vorbis_validate(b"vorbi"));
    assert!(!vorbis_validate(b"vorbiss"));
}

/// The Ogg CRC computed one bit at a time.
fn crc_bitwise(data: &[u8]) -> u32 {
    let mut crc: u32 = 0;
    for &b in data {
        crc ^= (b as u32) << 24;
        for _ in 0..8 {
            crc = if crc & 0x8000_0000 != 0 { (crc << 1) ^ 0x04c1_1db7 } else { crc << 1 };
        }
    }
    crc
}

fn crc_table(data: &[u8], start: u32) -> u32 {
    let table = crc32_init();
    let mut crc = start;
    for &b in data {
        crc = crc32_update(&table, crc, b);
    }
    crc
}

#[test]
fn crc_table_matches_bitwise_crc() {
    let table = crc32_init();
    assert_eq!(table.len(), 256);
    assert_eq!(table[0], 0);
    assert_eq!(table[1], 0x04c1_1db7);
    for data in [&b"OggS"[..], &b"123456789"[..], &[0u8, 0, 0, 0][..], &[0xffu8; 37][..]] {
        assert_eq!(crc_table(data, 0), crc_bitwise(data));
    }
}

#[test]
fn crc_in_chunks_is_crc_of_whole() {
    let whole = b"an ogg page, fed in two parts";
    let (a, b) = whole.split_at(11);
    assert_eq!(crc_table(b, crc_table(a, 0)), crc_table(whole, 0));
}
