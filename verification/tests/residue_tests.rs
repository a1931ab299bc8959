use lib::crc::{crc32_init, crc32_update};
use lib::decode::vorbis_decode_initial;
use lib::residue::{decode_residue, ResidueVector};
use lib::setup::start_decoder;
use lib::vorbis::Vorbis;

/// An Ogg page with the given flags, granule position, sequence number,
/// segment table and payload, and its CRC.
fn ogg_page(flag: u8, granule: u64, seq: u32, segments: &[u8], payload: &[u8]) -> Vec<u8> {
    let mut p: Vec<u8> = vec![b'O', b'g', b'g', b'S', 0, flag];
    p.extend_from_slice(&granule.to_le_bytes());
    p.extend_from_slice(&1u32.to_le_bytes());
    p.extend_from_slice(&seq.to_le_bytes());
    p.extend_from_slice(&[0, 0, 0, 0]);
    p.push(segments.len() as u8);
    p.extend_from_slice(segments);
    p.extend_from_slice(payload);
    let table = crc32_init();
    let mut crc = 0u32;
    for &b in &p {
        crc = crc32_update(&table, crc, b);
    }
    p[22..26].copy_from_slice(&crc.to_le_bytes());
    p
}

/// Writes bits first bit lowest, as Vorbis packets hold them.
struct BitWriter {
    bytes: Vec<u8>,
    used: u32,
}

impl BitWriter {
    fn new() -> BitWriter {
        BitWriter { bytes: Vec::new(), used: 8 }
    }

    fn put(&mut self, value: u32, bits: u32) {
        for i in 0..bits {
            if self.used == 8 {
                self.bytes.push(0);
                self.used = 0;
            }
            let bit = ((value >> i) & 1) as u8;
            let last = self.bytes.len() - 1;
            self.bytes[last] |= bit << self.used;
            self.used += 1;
        }
    }
}

fn ident_packet(channels: u8, rate: u32, blocksizes: u8) -> Vec<u8> {
    let mut p: Vec<u8> = vec![1];
    p.extend_from_slice(b"vorbis");
    p.extend_from_slice(&0u32.to_le_bytes());
    p.push(channels);
    p.extend_from_slice(&rate.to_le_bytes());
    p.extend_from_slice(&[0u8; 12]);
    p.push(blocksizes);
    p.push(1);
    p
}

fn comment_packet() -> Vec<u8> {
    let mut p: Vec<u8> = vec![3];
    p.extend_from_slice(b"vorbis");
    p.extend_from_slice(&0u32.to_le_bytes());
    p.extend_from_slice(&0u32.to_le_bytes());
    p.push(1);
    p
}

/// A setup header with one codebook of two one-bit codes and two
/// dimensions, with a lookup table (type 2) of four 4-bit values, one
/// floor, one residue of type `rtype` over values 0..`end` in partitions
/// of 4 (one classification, whose first pass uses the codebook), one
/// mapping and one short-block mode.
fn residue_setup(rtype: u32, end: u32) -> Vec<u8> {
    let mut w = BitWriter::new();
    w.put(5, 8);
    for &b in b"vorbis" {
        w.put(b as u32, 8);
    }
    // codebooks
    w.put(0, 8);
    w.put(0x42, 8);
    w.put(0x43, 8);
    w.put(0x56, 8);
    w.put(2, 16);
    w.put(2, 24);
    w.put(0, 1);
    w.put(0, 1);
    w.put(0, 5);
    w.put(0, 5);
    w.put(2, 4);
    w.put(0, 32);
    w.put(0, 32);
    w.put(3, 4);
    w.put(0, 1);
    for v in [1u32, 2, 3, 4] {
        w.put(v, 4);
    }
    // time domain transforms
    w.put(0, 6);
    w.put(0, 16);
    // floors
    w.put(0, 6);
    w.put(1, 16);
    w.put(0, 5);
    w.put(0, 2);
    w.put(4, 4);
    // residues
    w.put(0, 6);
    w.put(rtype, 16);
    w.put(0, 24);
    w.put(end, 24);
    w.put(3, 24);
    w.put(0, 6);
    w.put(0, 8);
    w.put(1, 3);
    w.put(0, 1);
    w.put(0, 8);
    // mappings
    w.put(0, 6);
    w.put(0, 16);
    w.put(0, 1);
    w.put(0, 1);
    w.put(0, 2);
    w.put(0, 8);
    w.put(0, 8);
    w.put(0, 8);
    // modes
    w.put(0, 6);
    w.put(0, 1);
    w.put(0, 16);
    w.put(0, 16);
    w.put(0, 8);
    // framing
    w.put(1, 1);
    w.bytes
}

/// A decoder standing just after the mode of an audio packet whose
/// residue bits follow: the class code, then the entry codes.
fn residue_decoder(rtype: u32, channels: u8, end: u32, residue_bits: &[u32]) -> Vorbis {
    let ident = ident_packet(channels, 44100, 0xb8);
    let comment = comment_packet();
    let setup = residue_setup(rtype, end);
    let mut data = ogg_page(2, 0, 0, &[30], &ident);
    let mut payload = comment.clone();
    payload.extend_from_slice(&setup);
    data.extend_from_slice(&ogg_page(0, 0, 1, &[comment.len() as u8, setup.len() as u8], &payload));
    let mut w = BitWriter::new();
    w.put(0, 1);
    for &b in residue_bits {
        w.put(b, 1);
    }
    let audio = w.bytes;
    data.extend_from_slice(&ogg_page(0, 0, 2, &[audio.len() as u8], &audio));
    let len = data.len();
    let mut f = Vorbis::new(data);
    f.stream_len = len as u32;
    assert!(start_decoder(&mut f));
    assert!(vorbis_decode_initial(&mut f).is_some());
    f
}

fn vector(entry: i32, channel: u32, offset: u32, step: u32, count: u32, rtype: u16) -> ResidueVector {
    ResidueVector { book: 0, entry, channel, offset, step, count, rtype }
}

#[test]
fn residue_type_1_vectors_follow_each_other() {
    let mut f = residue_decoder(1, 1, 8, &[0, 1, 0, 0, 1]);
    let v = decode_residue(&mut f, 0, &vec![false], 128, 2048);
    assert_eq!(v, vec![
        vector(1, 0, 0, 1, 2, 1),
        vector(0, 0, 2, 1, 2, 1),
        vector(0, 0, 4, 1, 2, 1),
        vector(1, 0, 6, 1, 2, 1),
    ]);
}

#[test]
fn residue_type_2_interleaves_two_channels() {
    let mut f = residue_decoder(2, 2, 8, &[1, 1, 1, 0, 1]);
    let v = decode_residue(&mut f, 0, &vec![false, false], 128, 2048);
    assert_eq!(v, vec![
        vector(1, 0, 0, 0, 2, 2),
        vector(1, 0, 1, 0, 2, 2),
        vector(0, 0, 2, 0, 2, 2),
        vector(1, 0, 3, 0, 2, 2),
    ]);
}

#[test]
fn residue_of_silent_channels_reads_nothing() {
    let mut f = residue_decoder(2, 2, 8, &[1, 1, 1, 0, 1]);
    let pos = f.pos;
    let acc = f.acc;
    let v = decode_residue(&mut f, 0, &vec![true, true], 128, 2048);
    assert!(v.is_empty());
    assert_eq!(f.pos, pos);
    assert_eq!(f.acc, acc);
}

#[test]
fn residue_stops_at_the_end_of_the_packet() {
    // a packet of one byte: the type bit, then seven residue bits; the
    // second class set's second entry code lies past the end
    let mut f = residue_decoder(1, 1, 64, &[0, 1, 0, 0, 1, 0, 1]);
    let v = decode_residue(&mut f, 0, &vec![false], 128, 2048);
    assert_eq!(v, vec![
        vector(1, 0, 0, 1, 2, 1),
        vector(0, 0, 2, 1, 2, 1),
        vector(0, 0, 4, 1, 2, 1),
        vector(1, 0, 6, 1, 2, 1),
        vector(1, 0, 8, 1, 2, 1),
    ]);
}

#[test]
fn residue_vectors_past_the_channel_are_refused() {
    let mut f = residue_decoder(1, 1, 8, &[0, 1, 0, 0, 1]);
    let v = decode_residue(&mut f, 0, &vec![false], 4, 4);
    assert_eq!(v, vec![vector(1, 0, 0, 1, 2, 1), vector(0, 0, 2, 1, 2, 1)]);
}
