use lib::codebook::{codebook_decode_scalar, decode_raw};
use lib::crc::{crc32_init, crc32_update};
use lib::ogg::{start_packet, start_page};
use lib::setup::parse_codebook;
use lib::vorbis::Vorbis;

/// An Ogg page with the given flags, granule position, sequence number,
/// segment table and payload, and its CRC.
fn ogg_page(flag: u8, granule: u64, seq: u32, segments: &[u8], payload: &[u8]) -> Vec<u8> {
    let mut p: Vec<u8> = vec![b'O', b'g', b'g', b'S', 0, flag];
    p.extend_from_slice(&granule.to_le_bytes());
    p.extend_from_slice(&1u32.to_le_bytes());
    p.extend_from_slice(&seq.to_le_bytes());
    p.extend_from_slice(&[0, 0, 0, 0]);
    p.push(segments.len() as u8);
    p.extend_from_slice(segments);
    p.extend_from_slice(payload);
    let table = crc32_init();
    let mut crc = 0u32;
    for &b in &p {
        crc = crc32_update(&table, crc, b);
    }
    p[22..26].copy_from_slice(&crc.to_le_bytes());
    p
}

/// Writes bits first bit lowest, as Vorbis packets hold them.
struct BitWriter {
    bytes: Vec<u8>,
    used: u32,
}

impl BitWriter {
    fn new() -> BitWriter {
        BitWriter { bytes: Vec::new(), used: 8 }
    }

    fn put(&mut self, value: u32, bits: u32) {
        for i in 0..bits {
            if self.used == 8 {
                self.bytes.push(0);
                self.used = 0;
            }
            let bit = ((value >> i) & 1) as u8;
            let last = self.bytes.len() - 1;
            self.bytes[last] |= bit << self.used;
            self.used += 1;
        }
    }
}

/// Writes the code of `len` bits `code` (most significant bit first, as
/// the code is read).
fn put_code(w: &mut BitWriter, code: u32, len: u32) {
    for k in (0..len).rev() {
        w.put((code >> k) & 1, 1);
    }
}

/// A decoder standing in a one-packet page whose packet starts with a
/// codebook header of the given code lengths (dense, no lookup table),
/// followed by `more`.
fn codebook_packet(lengths: &[u32], more: impl Fn(&mut BitWriter)) -> Vorbis {
    let mut w = BitWriter::new();
    w.put(0x42, 8);
    w.put(0x43, 8);
    w.put(0x56, 8);
    w.put(1, 16);
    w.put(lengths.len() as u32, 24);
    w.put(0, 1);
    w.put(0, 1);
    for &l in lengths {
        w.put(l - 1, 5);
    }
    w.put(0, 4);
    more(&mut w);
    let payload = w.bytes;
    let mut segments = vec![255u8; payload.len() / 255];
    segments.push((payload.len() % 255) as u8);
    let data = ogg_page(0, 0, 0, &segments, &payload);
    let mut f = Vorbis::new(data);
    assert!(start_page(&mut f));
    assert!(start_packet(&mut f));
    f
}

/// A decoder standing in a one-packet page whose packet starts with a
/// sparse codebook header of `entries` entries, of which only those listed
/// (entry, code length) have a code, followed by `more`.
fn sparse_codebook_packet(entries: u32, present: &[(u32, u32)], more: impl Fn(&mut BitWriter)) -> Vorbis {
    let mut w = BitWriter::new();
    w.put(0x42, 8);
    w.put(0x43, 8);
    w.put(0x56, 8);
    w.put(1, 16);
    w.put(entries, 24);
    w.put(0, 1);
    w.put(1, 1);
    for e in 0..entries {
        match present.iter().find(|p| p.0 == e) {
            Some(&(_, l)) => {
                w.put(1, 1);
                w.put(l - 1, 5);
            }
            None => w.put(0, 1),
        }
    }
    w.put(0, 4);
    more(&mut w);
    let payload = w.bytes;
    let mut segments = vec![255u8; payload.len() / 255];
    segments.push((payload.len() % 255) as u8);
    let data = ogg_page(0, 0, 0, &segments, &payload);
    let mut f = Vorbis::new(data);
    assert!(start_page(&mut f));
    assert!(start_packet(&mut f));
    f
}

/// Code lengths 1, 2, .., 11, 12, 12: a complete code whose last three
/// codes are longer than the fast table's 10 bits. The codes go to the
/// entries in order: 0, 10, 110, .., 11111111110, 111111111110,
/// 111111111111.
fn long_lengths() -> Vec<u32> {
    let mut l: Vec<u32> = (1..=11).collect();
    l.push(12);
    l.push(12);
    l
}

fn code_of(entry: u32) -> (u32, u32) {
    if entry < 11 {
        let len = entry + 1;
        (((1u32 << len) - 1) & !1, len)
    } else if entry == 11 {
        (0xffe, 12)
    } else {
        (0xfff, 12)
    }
}

#[test]
fn huffman_decoding_gives_back_each_entry() {
    let order = [12u32, 0, 11, 5, 10, 1, 12, 9, 3];
    let mut f = codebook_packet(&long_lengths(), |w| {
        for &e in &order {
            let (code, len) = code_of(e);
            put_code(w, code, len);
        }
    });
    let c = parse_codebook(&mut f).expect("a valid codebook");
    assert!(!c.sparse);
    assert_eq!(c.sorted_entries, 3);
    for &e in &order {
        assert_eq!(codebook_decode_scalar(&mut f, &c), e as i32);
    }
}

#[test]
fn huffman_decoding_of_a_small_codebook() {
    // four entries of lengths 2, 1, 3, 3: codes 00, 1, 010, 011
    let lengths = [2u32, 1, 3, 3];
    let codes = [(0u32, 2u32), (1, 1), (2, 3), (3, 3)];
    let order = [3usize, 1, 0, 2, 1];
    let mut f = codebook_packet(&lengths, |w| {
        for &e in &order {
            put_code(w, codes[e].0, codes[e].1);
        }
    });
    let c = parse_codebook(&mut f).expect("a valid codebook");
    for &e in &order {
        assert_eq!(decode_raw(&mut f, &c), e as i32);
    }
}

#[test]
fn huffman_decoding_stops_at_the_end_of_the_packet() {
    let mut f = codebook_packet(&[1, 1], |w| {
        w.put(1, 1);
    });
    let c = parse_codebook(&mut f).expect("a valid codebook");
    // the rest of the last byte decodes as entries 1 then 0s, then the
    // packet ends
    let mut seen = Vec::new();
    loop {
        let r = codebook_decode_scalar(&mut f, &c);
        if r < 0 {
            break;
        }
        seen.push(r);
        assert!(seen.len() <= 8);
    }
    assert_eq!(seen[seen.len() - 1], 0);
}

#[test]
fn sparse_huffman_decoding_gives_back_each_symbol() {
    // entries 3, 17, 25, 39 of 40 have lengths 2, 1, 3, 3: codes 00, 1,
    // 010, 011; sorted by code they stand at positions 0, 3, 1, 2
    let present = [(3u32, 2u32), (17, 1), (25, 3), (39, 3)];
    let codes = [(0u32, 2u32), (1, 1), (2, 3), (3, 3)];
    let positions = [0i32, 3, 1, 2];
    let order = [3usize, 1, 0, 2, 1];
    let write = |w: &mut BitWriter| {
        for &k in &order {
            put_code(w, codes[k].0, codes[k].1);
        }
    };
    let mut f = sparse_codebook_packet(40, &present, write);
    let c = parse_codebook(&mut f).expect("a valid codebook");
    assert!(c.sparse);
    assert_eq!(c.sorted_entries, 4);
    for &k in &order {
        assert_eq!(decode_raw(&mut f, &c), present[k].0 as i32);
    }
    let mut f = sparse_codebook_packet(40, &present, write);
    let c = parse_codebook(&mut f).expect("a valid codebook");
    for &k in &order {
        assert_eq!(codebook_decode_scalar(&mut f, &c), positions[k]);
    }
}

#[test]
fn sparse_huffman_decoding_of_long_codes() {
    // 13 of 100 entries, at 2, 9, 16, ..: the complete code of lengths
    // 1, 2, .., 11, 12, 12, whose order by code is the order of entries
    let lengths = long_lengths();
    let present: Vec<(u32, u32)> = (0..13u32).map(|i| (7 * i + 2, lengths[i as usize])).collect();
    let order = [12u32, 0, 11, 5, 10, 1, 12, 9, 3];
    let write = |w: &mut BitWriter| {
        for &i in &order {
            let (code, len) = code_of(i);
            put_code(w, code, len);
        }
    };
    let mut f = sparse_codebook_packet(100, &present, write);
    let c = parse_codebook(&mut f).expect("a valid codebook");
    assert!(c.sparse);
    assert_eq!(c.sorted_entries, 13);
    for &i in &order {
        assert_eq!(decode_raw(&mut f, &c), (7 * i + 2) as i32);
    }
    let mut f = sparse_codebook_packet(100, &present, write);
    let c = parse_codebook(&mut f).expect("a valid codebook");
    for &i in &order {
        assert_eq!(codebook_decode_scalar(&mut f, &c), i as i32);
    }
}
