use bytes::BytesMut;
use cappy3ds::pixel::{decode565, decode_rgb565, decode_sample, rgb565_to_rgb, rgb565_to_rgba, PixelError, PixelLayout};

#[test]
fn decode_sample_white() {
    assert_eq!(decode_sample(0xFFFF), (248, 252, 248));
}

#[test]
fn decode_sample_black() {
    assert_eq!(decode_sample(0x0000), (0, 0, 0));
}

#[test]
fn decode_sample_red_only() {
    assert_eq!(decode_sample(0xF800), (248, 0, 0));
}

#[test]
fn decode_sample_green_and_blue_only() {
    assert_eq!(decode_sample(0x07E0), (0, 252, 0));
    assert_eq!(decode_sample(0x001F), (0, 0, 248));
}

#[test]
fn decode_sample_matches_formulas_for_every_value() {
    for c in 0..=u16::MAX {
        let (r, g, b) = decode_sample(c);
        assert_eq!(r, (((c & 0xF800) >> 11) << 3) as u8);
        assert_eq!(g, (((c & 0x07E0) >> 5) << 2) as u8);
        assert_eq!(b, ((c & 0x001F) << 3) as u8);
    }
}

#[test]
fn rgb_conversion_reads_little_endian_samples() {
    let raw = BytesMut::from(&[0xFFu8, 0xFF, 0x00, 0xF8, 0x1F, 0x00][..]);
    let out = rgb565_to_rgb(&raw);
    assert_eq!(&out[..], &[248u8, 252, 248, 248, 0, 0, 0, 0, 248][..]);
}

#[test]
fn rgba_conversion_adds_zero_alpha() {
    let raw = BytesMut::from(&[0xFFu8, 0xFF, 0xE0, 0x07][..]);
    let out = rgb565_to_rgba(&raw);
    assert_eq!(&out[..], &[248u8, 252, 248, 0, 0, 252, 0, 0][..]);
}

#[test]
fn trailing_odd_byte_is_ignored() {
    let out = decode_rgb565(&[0x00, 0xF8, 0x12], PixelLayout::Rgb);
    assert_eq!(out, vec![248, 0, 0]);
}

#[test]
fn decode565_checks_dimensions() {
    let raw = vec![0u8; 2 * 3 * 2];
    assert_eq!(decode565(&raw, 2, 3, PixelLayout::Rgb).map(|v| v.len()), Ok(18));
    assert_eq!(decode565(&raw, 2, 3, PixelLayout::Rgba).map(|v| v.len()), Ok(24));
    assert_eq!(decode565(&raw, 3, 3, PixelLayout::Rgb), Err(PixelError::DimensionMismatch));
    assert_eq!(decode565(&raw[..11], 2, 3, PixelLayout::Rgb), Err(PixelError::DimensionMismatch));
}

#[test]
fn decode565_rejects_overflowing_dimensions() {
    let raw = vec![0u8; 4];
    assert_eq!(decode565(&raw, usize::MAX, 2, PixelLayout::Rgb), Err(PixelError::DimensionMismatch));
}

#[test]
fn decode565_full_screen() {
    let raw = vec![0xFFu8; 400 * 240 * 2];
    let out = decode565(&raw, 400, 240, PixelLayout::Rgb).unwrap();
    assert_eq!(out.len(), 400 * 240 * 3);
    assert_eq!(&out[..3], &[248, 252, 248]);
}
