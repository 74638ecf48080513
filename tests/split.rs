use bytes::BytesMut;
use cappy3ds::split::{audio_samples, split_capture_buffer};

fn pattern(len: usize) -> Vec<u8> {
    (0..len).map(|i| (i % 251) as u8).collect()
}

#[test]
fn full_field_regions_have_screen_sizes() {
    let data = pattern(801 * 496);
    let (upper, lower, audio) = split_capture_buffer(&BytesMut::from(&data[..]));
    assert_eq!(upper.len(), 400 * 240 * 2);
    assert_eq!(lower.len(), 320 * 240 * 2);
    assert_eq!(audio.len(), 801 * 16);
}

#[test]
fn regions_follow_the_period_layout() {
    let data = pattern(801 * 496 + 100);
    let (upper, lower, audio) = split_capture_buffer(&BytesMut::from(&data[..]));
    // preamble audio
    assert_eq!(&audio[..16], &data[..16]);
    assert_eq!(&audio[16..32], &data[496..512]);
    // first lower line follows the audio of period 81
    assert_eq!(&audio[81 * 16..82 * 16], &data[81 * 496..81 * 496 + 16]);
    assert_eq!(&lower[..480], &data[81 * 496 + 16..82 * 496]);
    // period 400: lower line first, then audio
    assert_eq!(&lower[319 * 480..], &data[400 * 496..400 * 496 + 480]);
    assert_eq!(&audio[400 * 16..401 * 16], &data[400 * 496 + 480..401 * 496]);
    // upper lines come first in the later periods
    assert_eq!(&upper[..480], &data[401 * 496..401 * 496 + 480]);
    assert_eq!(&audio[401 * 16..402 * 16], &data[401 * 496 + 480..402 * 496]);
    assert_eq!(&upper[399 * 480..], &data[800 * 496..800 * 496 + 480]);
}

#[test]
fn short_span_yields_nothing() {
    let data = pattern(495);
    let (upper, lower, audio) = split_capture_buffer(&BytesMut::from(&data[..]));
    assert!(upper.is_empty() && lower.is_empty() && audio.is_empty());
    let (upper, lower, audio) = split_capture_buffer(&BytesMut::new());
    assert!(upper.is_empty() && lower.is_empty() && audio.is_empty());
}

#[test]
fn split_keeps_every_byte_but_preamble_video() {
    for k in [0usize, 1, 80, 81, 82, 400, 401, 402, 801] {
        let data = pattern(k * 496);
        let (upper, lower, audio) = split_capture_buffer(&BytesMut::from(&data[..]));
        let kept = upper.len() + lower.len() + audio.len();
        assert_eq!(kept, k * 496 - 480 * k.min(81));
        let mut joined = Vec::new();
        joined.extend_from_slice(&audio);
        joined.extend_from_slice(&lower);
        joined.extend_from_slice(&upper);
        assert_eq!(joined.len(), kept);
    }
}

#[test]
fn audio_samples_are_signed_little_endian() {
    assert_eq!(audio_samples(&[0x01, 0x00, 0xFF, 0xFF, 0x00, 0x80, 0xFF, 0x7F, 0x09]), vec![1, -1, -32768, 32767]);
    assert_eq!(audio_samples(&[]), Vec::<i16>::new());
}
