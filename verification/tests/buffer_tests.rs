use lib::buffer::AudioBufferSlice;
use lib::types::VorbisError;

#[test]
fn new_buffer_is_empty() {
    let b: AudioBufferSlice<f32> = AudioBufferSlice::new(2);
    assert_eq!(b.channel_count(), 2);
    assert_eq!(b.len(), 0);
}

#[test]
fn buffer_from_channels() {
    let b = AudioBufferSlice::from(vec![vec![1i16, 2, 3], vec![4, 5, 6]]);
    assert_eq!(b.channel_count(), 2);
    assert_eq!(b.len(), 3);
    assert_eq!(b.get(1, 2), 6);
    assert_eq!(b.channel_samples(0), vec![1, 2, 3]);
}

#[test]
fn range_from_reads_from_an_offset() {
    let b = AudioBufferSlice::from(vec![vec![1i16, 2, 3, 4], vec![5, 6, 7, 8]]);
    let r = b.range_from(2);
    assert_eq!(r.channel_count(), 2);
    assert_eq!(r.get(0, 0), 3);
    assert_eq!(r.get(1, 1), 8);
    assert_eq!(r.channel_samples(1), vec![7, 8]);
    // the length is that of the whole first channel
    assert_eq!(r.len(), 4);
}

#[test]
fn push_and_set_channels() {
    let mut b: AudioBufferSlice<u8> = AudioBufferSlice::new(0);
    b.push_channel(vec![9, 9]);
    b.push_channel(vec![1]);
    assert_eq!(b.channel_count(), 2);
    assert_eq!(b.len(), 2);
    b.set(1, vec![4, 5, 6]);
    assert_eq!(b.channel_samples(1), vec![4, 5, 6]);
    b.set_sample(1, 2, 7);
    assert_eq!(b.get(1, 2), 7);
    let single = AudioBufferSlice::from_single_channel(vec![3u8, 4]);
    assert_eq!(single.channel_count(), 1);
    assert_eq!(single.get(0, 1), 4);
}

#[test]
fn error_codes() {
    assert_eq!(VorbisError::NoError.code(), 0);
    assert_eq!(VorbisError::NeedMoreData.code(), 1);
    assert_eq!(VorbisError::TooManyChannels.code(), 5);
    assert_eq!(VorbisError::UnexpectedEof.code(), 10);
    assert_eq!(VorbisError::InvalidSetup.code(), 20);
    assert_eq!(VorbisError::MissingCapturePattern.code(), 30);
    assert_eq!(VorbisError::SeekFailed.code(), 37);
}
