use lib::crc::{crc32_init, crc32_update};
use lib::ogg::{start_packet, start_page};
use lib::setup::{parse_codebook, parse_floor, parse_mapping, parse_mode, parse_residue};
use lib::types::{Mode, VorbisError};
use lib::vorbis::Vorbis;

/// An Ogg page with the given flags, granule position, sequence number,
/// segment table and payload, and its CRC.
fn ogg_page(flag: u8, granule: u64, seq: u32, segments: &[u8], payload: &[u8]) -> Vec<u8> {
    let mut p: Vec<u8> = vec![b'O', b'g', b'g', b'S', 0, flag];
    p.extend_from_slice(&granule.to_le_bytes());
    p.extend_from_slice(&1u32.to_le_bytes());
    p.extend_from_slice(&seq.to_le_bytes());
    p.extend_from_slice(&[0, 0, 0, 0]);
    p.push(segments.len() as u8);
    p.extend_from_slice(segments);
    p.extend_from_slice(payload);
    let table = crc32_init();
    let mut crc = 0u32;
    for &b in &p {
        crc = crc32_update(&table, crc, b);
    }
    p[22..26].copy_from_slice(&crc.to_le_bytes());
    p
}

/// Writes bits first bit lowest, as Vorbis packets hold them.
struct BitWriter {
    bytes: Vec<u8>,
    used: u32,
}

impl BitWriter {
    fn new() -> BitWriter {
        BitWriter { bytes: Vec::new(), used: 8 }
    }

    fn put(&mut self, value: u32, bits: u32) {
        for i in 0..bits {
            if self.used == 8 {
                self.bytes.push(0);
                self.used = 0;
            }
            let bit = ((value >> i) & 1) as u8;
            let last = self.bytes.len() - 1;
            self.bytes[last] |= bit << self.used;
            self.used += 1;
        }
    }
}

/// A decoder standing at the start of a one-packet page holding the bits
/// that `write` puts.
fn packet(write: impl Fn(&mut BitWriter)) -> Vorbis {
    let mut w = BitWriter::new();
    write(&mut w);
    let payload = w.bytes;
    let mut segments = vec![255u8; payload.len() / 255];
    segments.push((payload.len() % 255) as u8);
    let data = ogg_page(0, 0, 0, &segments, &payload);
    let mut f = Vorbis::new(data);
    assert!(start_page(&mut f));
    assert!(start_packet(&mut f));
    f
}

/// A dense codebook of one dimension whose two entries have 1-bit codes,
/// with no lookup table.
fn put_small_codebook(w: &mut BitWriter) {
    w.put(0x42, 8);
    w.put(0x43, 8);
    w.put(0x56, 8);
    w.put(1, 16);
    w.put(2, 24);
    w.put(0, 1);
    w.put(0, 1);
    w.put(0, 5);
    w.put(0, 5);
    w.put(0, 4);
}

fn put_mode(w: &mut BitWriter, blockflag: u32, window: u32, mapping: u32) {
    w.put(blockflag, 1);
    w.put(window, 16);
    w.put(0, 16);
    w.put(mapping, 8);
}

#[test]
fn parse_mode_reads_each_field() {
    let mut f = packet(|w| put_mode(w, 1, 0, 2));
    let m = parse_mode(&mut f, 3).expect("a valid mode");
    assert_eq!(m, Mode { blockflag: 1, mapping: 2, windowtype: 0, transformtype: 0 });
}

#[test]
fn parse_mode_refuses_a_missing_mapping() {
    let mut f = packet(|w| put_mode(w, 0, 0, 3));
    assert!(parse_mode(&mut f, 3).is_none());
    assert_eq!(f.error, VorbisError::InvalidSetup);
}

#[test]
fn parse_mode_refuses_a_window_type() {
    let mut f = packet(|w| put_mode(w, 0, 1, 0));
    assert!(parse_mode(&mut f, 3).is_none());
    assert_eq!(f.error, VorbisError::InvalidSetup);
}

/// A mapping of two channels, two submaps and one coupling step (channel
/// `magnitude` against channel `angle`, one bit each).
fn put_mapping(w: &mut BitWriter, magnitude: u32, angle: u32) {
    w.put(0, 16);
    w.put(1, 1);
    w.put(1, 4);
    w.put(1, 1);
    w.put(0, 8);
    w.put(magnitude, 1);
    w.put(angle, 1);
    w.put(0, 2);
    w.put(1, 4);
    w.put(0, 4);
    w.put(0, 8);
    w.put(1, 8);
    w.put(0, 8);
    w.put(0, 8);
    w.put(0, 8);
    w.put(1, 8);
}

#[test]
fn parse_mapping_reads_each_field() {
    let mut f = packet(|w| put_mapping(w, 0, 1));
    let m = parse_mapping(&mut f, 2, 2, 2).expect("a valid mapping");
    assert_eq!(m.coupling_steps, 1);
    assert_eq!(m.submaps, 2);
    assert_eq!(m.chan.len(), 2);
    assert_eq!((m.chan[0].magnitude, m.chan[0].angle, m.chan[0].mux), (0, 1, 1));
    assert_eq!((m.chan[1].magnitude, m.chan[1].angle, m.chan[1].mux), (0, 0, 0));
    assert_eq!(m.submap_floor, vec![1, 0]);
    assert_eq!(m.submap_residue, vec![0, 1]);
}

#[test]
fn parse_mapping_refuses_a_channel_coupled_with_itself() {
    let mut f = packet(|w| put_mapping(w, 1, 1));
    assert!(parse_mapping(&mut f, 2, 2, 2).is_none());
    assert_eq!(f.error, VorbisError::InvalidSetup);
}

#[test]
fn parse_mapping_refuses_a_missing_floor() {
    let mut f = packet(|w| put_mapping(w, 0, 1));
    assert!(parse_mapping(&mut f, 2, 1, 2).is_none());
    assert_eq!(f.error, VorbisError::InvalidSetup);
}

/// A type-2 residue over [0, 256) in partitions of 32, with two
/// classifications: the first has books for passes 0 and 1, the second
/// (whose cascade has high bits) for passes 0 and 3; all books are `book`.
fn put_residue(w: &mut BitWriter, book: u32) {
    w.put(2, 16);
    w.put(0, 24);
    w.put(256, 24);
    w.put(31, 24);
    w.put(1, 6);
    w.put(0, 8);
    w.put(3, 3);
    w.put(0, 1);
    w.put(1, 3);
    w.put(1, 1);
    w.put(1, 5);
    for _ in 0..4 {
        w.put(book, 8);
    }
}

#[test]
fn parse_residue_reads_each_field() {
    let mut f = packet(|w| {
        put_small_codebook(w);
        put_residue(w, 0);
    });
    let c = parse_codebook(&mut f).expect("a valid codebook");
    let (t, r) = parse_residue(&mut f, &vec![c]).expect("a valid residue");
    assert_eq!(t, 2);
    assert_eq!((r.begin, r.end, r.part_size), (0, 256, 32));
    assert_eq!((r.classifications, r.classbook), (2, 0));
    assert_eq!(r.residue_books[0], vec![0, 0, -1, -1, -1, -1, -1, -1]);
    assert_eq!(r.residue_books[1], vec![0, -1, -1, 0, -1, -1, -1, -1]);
    assert_eq!(r.classdata, vec![vec![0u8], vec![1u8]]);
}

#[test]
fn parse_residue_refuses_a_missing_book() {
    let mut f = packet(|w| {
        put_small_codebook(w);
        put_residue(w, 1);
    });
    let c = parse_codebook(&mut f).expect("a valid codebook");
    assert!(parse_residue(&mut f, &vec![c]).is_none());
    assert_eq!(f.error, VorbisError::InvalidSetup);
}

/// A floor 1 of two partitions, of classes 0 and 1: class 0 has two
/// dimensions and no subclasses, class 1 one dimension and two subclasses;
/// multiplier 2, 7 range bits, points 10, 100 and 50.
fn put_floor(w: &mut BitWriter, floor_type: u32) {
    w.put(floor_type, 16);
    w.put(2, 5);
    w.put(0, 4);
    w.put(1, 4);
    w.put(1, 3);
    w.put(0, 2);
    w.put(1, 8);
    w.put(0, 3);
    w.put(1, 2);
    w.put(0, 8);
    w.put(0, 8);
    w.put(1, 8);
    w.put(1, 2);
    w.put(7, 4);
    w.put(10, 7);
    w.put(100, 7);
    w.put(50, 7);
}

#[test]
fn parse_floor_reads_each_field() {
    let mut f = packet(|w| put_floor(w, 1));
    let g = parse_floor(&mut f, 1).expect("a valid floor");
    assert_eq!(g.partitions, 2);
    assert_eq!(g.partition_class_list, vec![0, 1]);
    assert_eq!(g.class_dimensions, vec![2, 1]);
    assert_eq!(g.class_subclasses, vec![0, 1]);
    assert_eq!(g.class_masterbooks, vec![0, 0]);
    assert_eq!(g.subclass_books, vec![vec![0i16], vec![-1i16, 0]]);
    assert_eq!(g.floor1_multiplier, 2);
    assert_eq!(g.rangebits, 7);
    assert_eq!(g.xlist, vec![0, 128, 10, 100, 50]);
    assert_eq!(g.values, 5);
}

#[test]
fn parse_floor_refuses_an_unknown_type() {
    let mut f = packet(|w| put_floor(w, 2));
    assert!(parse_floor(&mut f, 1).is_none());
    assert_eq!(f.error, VorbisError::InvalidSetup);
}

/// A codebook header: sync bytes, dimensions, entries, and the flags.
fn put_codebook_header(w: &mut BitWriter, dims: u32, entries: u32, ordered: bool, sparse: bool) {
    w.put(0x42, 8);
    w.put(0x43, 8);
    w.put(0x56, 8);
    w.put(dims, 16);
    w.put(entries, 24);
    w.put(ordered as u32, 1);
    if !ordered {
        w.put(sparse as u32, 1);
    }
}

#[test]
fn parse_codebook_reads_listed_lengths() {
    let mut f = packet(|w| {
        put_codebook_header(w, 3, 4, false, false);
        for l in [2u32, 1, 3, 3] {
            w.put(l - 1, 5);
        }
        w.put(0, 4);
    });
    let c = parse_codebook(&mut f).expect("a valid codebook");
    assert_eq!((c.dimensions, c.entries, c.sparse), (3, 4, false));
    assert_eq!(c.codeword_lengths, vec![2, 1, 3, 3]);
}

#[test]
fn parse_codebook_reads_ordered_lengths() {
    // lengths from 1: one entry of length 1 (count in 3 bits), one of
    // length 2 (2 bits), two of length 3 (2 bits)
    let mut f = packet(|w| {
        put_codebook_header(w, 1, 4, true, false);
        w.put(0, 5);
        w.put(1, 3);
        w.put(1, 2);
        w.put(2, 2);
        w.put(0, 4);
    });
    let c = parse_codebook(&mut f).expect("a valid codebook");
    assert_eq!((c.dimensions, c.entries, c.sparse), (1, 4, false));
    assert_eq!(c.codeword_lengths, vec![1, 2, 3, 3]);
}

#[test]
fn parse_codebook_refuses_a_run_past_the_last_entry() {
    let mut f = packet(|w| {
        put_codebook_header(w, 1, 4, true, false);
        w.put(0, 5);
        w.put(5, 3);
        w.put(0, 4);
    });
    assert!(parse_codebook(&mut f).is_none());
    assert_eq!(f.error, VorbisError::InvalidSetup);
}

#[test]
fn parse_codebook_refuses_a_length_of_32() {
    let mut f = packet(|w| {
        put_codebook_header(w, 1, 2, false, false);
        w.put(0, 5);
        w.put(31, 5);
        w.put(0, 4);
    });
    assert!(parse_codebook(&mut f).is_none());
    assert_eq!(f.error, VorbisError::InvalidSetup);
}

#[test]
fn parse_codebook_refuses_bad_sync_bytes() {
    let mut f = packet(|w| {
        w.put(0x42, 8);
        w.put(0x44, 8);
        w.put(0x56, 8);
        w.put(0, 64);
    });
    assert!(parse_codebook(&mut f).is_none());
    assert_eq!(f.error, VorbisError::InvalidSetup);
}

#[test]
fn parse_codebook_keeps_sparse_lengths_by_sorted_position() {
    // entries 3, 17, 25, 39 of 40 have lengths 2, 1, 3, 3; sorted by code
    // (00, 010, 011, 1) they stand in the order 3, 25, 39, 17
    let mut f = packet(|w| {
        put_codebook_header(w, 1, 40, false, true);
        for e in 0..40u32 {
            let l = match e {
                3 => 2,
                17 => 1,
                25 | 39 => 3,
                _ => 0,
            };
            if l == 0 {
                w.put(0, 1);
            } else {
                w.put(1, 1);
                w.put(l - 1, 5);
            }
        }
        w.put(0, 4);
    });
    let c = parse_codebook(&mut f).expect("a valid codebook");
    assert!(c.sparse);
    assert_eq!(c.sorted_values, vec![3, 25, 39, 17]);
    assert_eq!(c.codeword_lengths, vec![2, 3, 3, 1]);
}

/// A lookup table of the given type, minimum and delta encodings, 4 value
/// bits, no sequence flag, and the multiplicands.
fn put_lookup(w: &mut BitWriter, lookup_type: u32, mults: &[u32]) {
    w.put(lookup_type, 4);
    w.put(0x1234_5678, 32);
    w.put(0x0abc_def0, 32);
    w.put(3, 4);
    w.put(0, 1);
    for &m in mults {
        w.put(m, 4);
    }
}

#[test]
fn parse_codebook_reads_a_type_2_lookup_table() {
    let mut f = packet(|w| {
        put_codebook_header(w, 1, 2, false, false);
        w.put(0, 5);
        w.put(0, 5);
        put_lookup(w, 2, &[5, 9]);
    });
    let c = parse_codebook(&mut f).expect("a valid codebook");
    assert_eq!(c.lookup_type, 2);
    assert_eq!((c.minimum_value_bits, c.delta_value_bits), (0x1234_5678, 0x0abc_def0));
    assert_eq!((c.value_bits, c.sequence_p, c.lookup_values), (4, 0, 2));
    assert_eq!(c.multiplicands, vec![5, 9]);
}

#[test]
fn parse_codebook_expands_a_type_1_lookup_table() {
    // 4 entries of 2 dimensions take 2 values: entry j uses the digits of
    // j in base 2, lowest first
    let mut f = packet(|w| {
        put_codebook_header(w, 2, 4, false, false);
        for _ in 0..4 {
            w.put(1, 5);
        }
        put_lookup(w, 1, &[3, 7]);
    });
    let c = parse_codebook(&mut f).expect("a valid codebook");
    assert_eq!(c.lookup_type, 2);
    assert_eq!(c.lookup_values, 2);
    assert_eq!(c.multiplicands, vec![3, 3, 7, 3, 3, 7, 7, 7]);
}

#[test]
fn parse_codebook_refuses_an_unknown_lookup_type() {
    let mut f = packet(|w| {
        put_codebook_header(w, 1, 2, false, false);
        w.put(0, 5);
        w.put(0, 5);
        w.put(3, 4);
    });
    assert!(parse_codebook(&mut f).is_none());
    assert_eq!(f.error, VorbisError::InvalidSetup);
}
