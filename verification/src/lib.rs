//! Ogg Vorbis decoding: the integer core of the decoder. Reading bits,
//! bytes, packets and pages of an Ogg stream (with their CRC), building
//! the Huffman tables of the codebooks, parsing the setup headers, decoding
//! the floor curves and residue vectors of audio packets, keeping count of
//! sample positions, finding pages, and seeking.

pub mod bits;
pub mod crc;
pub mod types;
pub mod huffman;
pub mod vorbis;
pub mod ogg;
pub mod codebook;
pub mod pushdata;
pub mod setup;
pub mod buffer;
pub mod floor;
pub mod decode;
pub mod seek;
pub mod open;
pub mod residue;
pub mod seek_sample;
