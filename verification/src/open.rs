use vstd::prelude::*;
use crate::decode::stb_vorbis_flush_pushdata;
use crate::ogg::{get8_packet, progress};
use crate::pushdata::{is_whole_packet_present, vorbis_search_for_page_pushdata, whole_packet_present};
use crate::setup::{start_decoder, setup_ok, ident_header_ok, page_header_at, first_page_fit, ident_packet_error};
use crate::ogg::header_cut;
use crate::types::VorbisError;
use crate::vorbis::{Vorbis, error, byte_at, EOP};

verus! {

/// Opens a stream held whole in memory and reads its three headers; the
/// first frame is to be decoded next. Nothing, with UnexpectedEof, for
/// empty data; nothing when the headers are refused, with the error that
/// refused them.
pub fn stb_vorbis_open_memory(data: &[u8], error: &mut VorbisError) -> (r: Option<Vorbis>)
    requires
        data@.len() <= 0x7fff_0000,
    ensures
        data@.len() == 0 ==> r is None && *final(error) == VorbisError::UnexpectedEof,
        r is Some ==> setup_ok(r->0) && r->0.wf() && r->0.data@ == data@ && !r->0.push_mode
            && r->0.stream_len == data@.len() && ident_header_ok(data@, 0),
        data@.len() > 0 && r is None ==> *final(error) != VorbisError::NoError,
        page_header_at(data@, 0) && !first_page_fit(data@, 0) ==> r is None
            && *final(error) == VorbisError::InvalidFirstPage,
        page_header_at(data@, 0) && first_page_fit(data@, 0) && ident_packet_error(data@, 28) != VorbisError::NoError
            ==> r is None && *final(error) == ident_packet_error(data@, 28),
        ident_header_ok(data@, 0) && !(byte_at(data@, 58) == 0x4f && byte_at(data@, 59) == 0x67
            && byte_at(data@, 60) == 0x67 && byte_at(data@, 61) == 0x53)
            ==> r is None && *final(error) == VorbisError::MissingCapturePattern,
{
    if data.len() == 0 {
        *error = VorbisError::UnexpectedEof;
        return None;
    }
    let mut bytes: Vec<u8> = Vec::new();
    let mut i: usize = 0;
    while i < data.len()
        invariant
            i <= data@.len(),
            bytes@ == data@.subrange(0, i as int),
        decreases data@.len() - i,
    {
        bytes.push(data[i]);
        proof {
            assert(bytes@ =~= data@.subrange(0, i as int + 1));
        }
        i = i + 1;
    }
    proof {
        assert(bytes@ =~= data@);
    }
    let mut p = Vorbis::new(bytes);
    p.stream_len = data.len() as u32;
    p.push_mode = false;
    if start_decoder(&mut p) {
        return Some(p);
    }
    *error = p.error;
    None
}

/// Opens a stream from its first block of pushed data: reads the three
/// headers from it. Gives the decoder and how many bytes the headers took;
/// when the block is too short to hold them, nothing with NeedMoreData;
/// when they are refused, nothing with the error that refused them.
pub fn stb_vorbis_open_pushdata(data: Vec<u8>, data_used: &mut i32, error: &mut VorbisError) -> (r: Option<Vorbis>)
    requires
        data@.len() <= 0x7fff_0000,
    ensures
        r is Some ==> setup_ok(r->0) && r->0.wf() && r->0.push_mode && ident_header_ok(data@, 0)
            && *final(data_used) == r->0.pos && *final(error) == VorbisError::NoError,
        r is None ==> *final(error) != VorbisError::NoError && *final(data_used) == *old(data_used),
        header_cut(data@, 0) ==> r is None && *final(error) == VorbisError::NeedMoreData,
{
    let mut p = Vorbis::new(data);
    p.push_mode = true;
    if !start_decoder(&mut p) {
        if p.eof {
            *error = VorbisError::NeedMoreData;
        } else {
            *error = p.error;
        }
        return None;
    }
    *data_used = p.pos as i32;
    *error = VorbisError::NoError;
    Some(p)
}

/// What decoding a frame from a block of pushed data begins with.
pub enum PushStart {
    /// The decoder was not opened for pushed data (nothing used).
    Refused,
    /// The decoder is resynchronising: the bytes of the block used.
    Resync(i32),
    /// The block does not hold the whole next packet (nothing used).
    NeedMoreData,
    /// The next packet is in the block: decode it.
    Decode,
}

/// Starts decoding a frame from a block of pushed data: refuses a decoder
/// in pull mode (an error), resynchronises while a page is being searched
/// for, and otherwise reads from the new block and checks that it holds
/// the whole next packet.
pub fn pushdata_start(f: &mut Vorbis, data: Vec<u8>) -> (r: PushStart)
    requires
        old(f).wf(),
        data@.len() < 0x7fff_0000,
        old(f).page_crc_tests >= 0 ==> forall|k: int| 0 <= k < old(f).page_crc_tests
            ==> (#[trigger] old(f).scan@[k]).bytes_left > 0,
    ensures
        final(f).wf(),
        !old(f).push_mode ==> r is Refused && *final(f) == (Vorbis { error: VorbisError::InvalidApiMixing, ..*old(f) }),
        old(f).push_mode && old(f).page_crc_tests >= 0 ==> r is Resync,
        r matches PushStart::Resync(n) ==> 0 <= n <= data@.len(),
        r is Decode ==> final(f).data@ == data@ && final(f).pos == 0 && final(f).error == VorbisError::NoError,
        r is NeedMoreData ==> final(f).error == VorbisError::NeedMoreData || final(f).error == VorbisError::InvalidStream,
        old(f).push_mode && old(f).page_crc_tests < 0 ==> {
            let g = Vorbis { data: data, pos: 0, error: VorbisError::NoError, ..*old(f) };
            &&& r is Decode <==> whole_packet_present(g, false)
            &&& !(r is Decode) ==> r is NeedMoreData
        },
{
    if !f.push_mode {
        error(f, VorbisError::InvalidApiMixing);
        return PushStart::Refused;
    }
    if f.page_crc_tests >= 0 {
        let n = vorbis_search_for_page_pushdata(f, &data);
        return PushStart::Resync(n);
    }
    f.data = data;
    f.pos = 0;
    f.error = VorbisError::NoError;
    if !is_whole_packet_present(f, false) {
        return PushStart::NeedMoreData;
    }
    PushStart::Decode
}

/// After a frame of pushed data failed to decode: a packet that was not
/// audio, or a continued packet while resynchronising, is skipped, and the
/// bytes used so far are given; any other failure starts a
/// resynchronisation, keeps its error, and gives 1.
pub fn pushdata_failed(f: &mut Vorbis) -> (r: i32)
    requires
        old(f).wf(),
    ensures
        final(f).wf(),
        ({
            let e = old(f).error;
            let skip = e == VorbisError::BadPacketType
                || (e == VorbisError::ContinuedPacketFlagInvalid && old(f).previous_length == 0);
            &&& skip ==> r == final(f).pos && final(f).same_setup(&*old(f))
            &&& !skip ==> r == 1 && final(f).error == e && final(f).page_crc_tests == 0
                && final(f).previous_length == 0 && !final(f).current_loc_valid
        }),
{
    let e = f.error;
    if e == VorbisError::BadPacketType || (e == VorbisError::ContinuedPacketFlagInvalid && f.previous_length == 0) {
        f.error = VorbisError::NoError;
        loop
            invariant
                f.wf(),
                f.same_setup(&*old(f)),
            decreases progress(*f),
        {
            let ghost before = progress(*f);
            let b = get8_packet(f);
            if b == EOP {
                break;
            }
            if f.eof {
                break;
            }
        }
        return f.pos as i32;
    }
    stb_vorbis_flush_pushdata(f);
    f.error = e;
    1
}

} // verus!
