use vstd::prelude::*;

verus! {

/// Errors reported by the decoder.
#[derive(Copy, Clone, PartialEq, Eq, Debug, Structural)]
pub enum VorbisError {
    NoError,
    /// Not a real error: the pushed block is too short.
    NeedMoreData,
    /// Pull and push calls were mixed.
    InvalidApiMixing,
    OutOfMem,
    /// The stream uses floor type 0.
    FeatureNotSupported,
    /// More channels than the decoder supports.
    TooManyChannels,
    FileOpenFailure,
    /// Seeking in a stream of unknown length.
    SeekWithoutLength,
    /// The stream is truncated.
    UnexpectedEof,
    /// Seeking past the end.
    SeekInvalid,
    InvalidSetup,
    InvalidStream,
    MissingCapturePattern,
    InvalidStreamStructureVersion,
    ContinuedPacketFlagInvalid,
    IncorrectStreamSerialNumber,
    InvalidFirstPage,
    BadPacketType,
    CantFindLastPage,
    SeekFailed,
}

impl VorbisError {
    /// The numeric code of the error, as the C library numbers them.
    pub fn code(&self) -> (r: i32)
        ensures
            (*self == VorbisError::NoError) <==> r == 0,
            (*self == VorbisError::NeedMoreData) <==> r == 1,
            (*self == VorbisError::UnexpectedEof) <==> r == 10,
            (*self == VorbisError::InvalidSetup) <==> r == 20,
            (*self == VorbisError::MissingCapturePattern) <==> r == 30,
    {
        match self {
            VorbisError::NoError => 0,
            VorbisError::NeedMoreData => 1,
            VorbisError::InvalidApiMixing => 2,
            VorbisError::OutOfMem => 3,
            VorbisError::FeatureNotSupported => 4,
            VorbisError::TooManyChannels => 5,
            VorbisError::FileOpenFailure => 6,
            VorbisError::SeekWithoutLength => 7,
            VorbisError::UnexpectedEof => 10,
            VorbisError::SeekInvalid => 11,
            VorbisError::InvalidSetup => 20,
            VorbisError::InvalidStream => 21,
            VorbisError::MissingCapturePattern => 30,
            VorbisError::InvalidStreamStructureVersion => 31,
            VorbisError::ContinuedPacketFlagInvalid => 32,
            VorbisError::IncorrectStreamSerialNumber => 33,
            VorbisError::InvalidFirstPage => 34,
            VorbisError::BadPacketType => 35,
            VorbisError::CantFindLastPage => 36,
            VorbisError::SeekFailed => 37,
        }
    }
}

/// General information about an open stream.
#[derive(Copy, Clone)]
pub struct VorbisInfo {
    pub sample_rate: u32,
    pub channels: i32,
    pub max_frame_size: usize,
}

/// Where a page lies in the stream and the last sample it completes.
#[derive(Copy, Clone, PartialEq, Eq, Debug, Structural)]
pub struct ProbedPage {
    pub page_start: u32,
    pub page_end: u32,
    pub last_decoded_sample: u32,
}

/// A candidate page being checked while resynchronising pushed data.
#[derive(Copy, Clone, PartialEq, Eq, Debug, Structural)]
pub struct CRCscan {
    /// The CRC the page header claims.
    pub goal_crc: u32,
    /// Bytes of the page not yet fed to the CRC.
    pub bytes_left: i32,
    /// The CRC of the bytes fed so far.
    pub crc_so_far: u32,
    /// Where the scan stands in the current block.
    pub bytes_done: i32,
    /// The granule position the page encodes.
    pub sample_loc: u32,
}

/// A mode: the block size flag and the mapping it uses.
#[derive(Copy, Clone, PartialEq, Eq, Debug, Structural)]
pub struct Mode {
    pub blockflag: u8,
    pub mapping: u8,
    pub windowtype: u16,
    pub transformtype: u16,
}

/// Per-channel mapping data: the coupling pair and the submap.
#[derive(Copy, Clone, PartialEq, Eq, Debug, Structural)]
pub struct MappingChannel {
    pub magnitude: u8,
    pub angle: u8,
    pub mux: u8,
}

/// A channel mapping.
#[derive(Clone)]
pub struct Mapping {
    pub coupling_steps: u16,
    pub chan: Vec<MappingChannel>,
    pub submaps: u8,
    pub submap_floor: Vec<u8>,
    pub submap_residue: Vec<u8>,
}

/// A residue configuration.
#[derive(Clone)]
pub struct Residue {
    pub begin: u32,
    pub end: u32,
    pub part_size: u32,
    pub classifications: u8,
    pub classbook: u8,
    /// For each class-book entry, its classification of each partition.
    pub classdata: Vec<Vec<u8>>,
    /// For each classification, the book of each of the 8 passes (-1: none).
    pub residue_books: Vec<Vec<i16>>,
}

/// A floor of type 0 (parsed, then refused as unsupported).
#[derive(Clone)]
pub struct Floor0 {
    pub order: u8,
    pub rate: u16,
    pub bark_map_size: u16,
    pub amplitude_bits: u8,
    pub amplitude_offset: u8,
    pub number_of_books: u8,
    pub book_list: Vec<u8>,
}

/// A floor of type 1: a piecewise linear curve over `xlist`.
#[derive(Clone)]
pub struct Floor1 {
    pub partitions: u8,
    pub partition_class_list: Vec<u8>,
    pub class_dimensions: Vec<u8>,
    pub class_subclasses: Vec<u8>,
    pub class_masterbooks: Vec<u8>,
    pub subclass_books: Vec<Vec<i16>>,
    pub xlist: Vec<u16>,
    /// The positions of `xlist` in increasing order of x.
    pub sorted_order: Vec<u8>,
    /// For each position, its low and high neighbours among the earlier ones.
    pub neighbors: Vec<(u8, u8)>,
    pub floor1_multiplier: u8,
    pub rangebits: u8,
    pub values: i32,
}

/// A floor configuration.
#[derive(Clone)]
pub struct Floor {
    pub floor1: Floor1,
}

/// A codebook: Huffman code, lookup table shape and its raw multiplicands.
/// The multiplicands are kept as the integers of the stream, with the
/// 32-bit encodings of the minimum and delta values beside them.
#[derive(Clone)]
pub struct Codebook {
    pub dimensions: i32,
    pub entries: i32,
    pub codeword_lengths: Vec<u8>,
    pub minimum_value_bits: u32,
    pub delta_value_bits: u32,
    pub value_bits: u8,
    pub lookup_type: u8,
    pub sequence_p: u8,
    pub sparse: bool,
    pub lookup_values: u32,
    /// Raw multiplicands; after setup, for lookup type 2, one per
    /// (entry, dimension) pair.
    pub multiplicands: Vec<u16>,
    pub codewords: Vec<u32>,
    pub fast_huffman: Vec<i16>,
    pub sorted_codewords: Vec<u32>,
    pub sorted_values: Vec<i32>,
    pub sorted_entries: i32,
}

impl Codebook {
    /// An empty codebook.
    pub fn new() -> (c: Codebook)
        ensures
            c.entries == 0,
            c.dimensions == 0,
            c.codewords@.len() == 0,
            c.codeword_lengths@.len() == 0,
            c.sorted_codewords@.len() == 0,
            c.sorted_values@.len() == 0,
            c.multiplicands@.len() == 0,
            c.fast_huffman@.len() == 0,
            c.sorted_entries == 0,
            c.lookup_type == 0,
            c.lookup_values == 0,
            !c.sparse,
    {
        Codebook {
            dimensions: 0,
            entries: 0,
            codeword_lengths: Vec::new(),
            minimum_value_bits: 0,
            delta_value_bits: 0,
            value_bits: 0,
            lookup_type: 0,
            sequence_p: 0,
            sparse: false,
            lookup_values: 0,
            multiplicands: Vec::new(),
            codewords: Vec::new(),
            fast_huffman: Vec::new(),
            sorted_codewords: Vec::new(),
            sorted_values: Vec::new(),
            sorted_entries: 0,
        }
    }
}

} // verus!
