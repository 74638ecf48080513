use crate::buffer::{buffer_bytes, buffer_from, bytes_of};
use bytes::BytesMut;
use vstd::prelude::*;

verus! {

/// Red channel of an RGB565 sample, widened to eight bits.
pub open spec fn red_of(c: u16) -> u8 {
    (((c & 0xF800u16) >> 11u16) << 3u16) as u8
}

/// Green channel of an RGB565 sample, widened to eight bits.
pub open spec fn green_of(c: u16) -> u8 {
    (((c & 0x07E0u16) >> 5u16) << 2u16) as u8
}

/// Blue channel of an RGB565 sample, widened to eight bits.
pub open spec fn blue_of(c: u16) -> u8 {
    ((c & 0x001Fu16) << 3u16) as u8
}

/// Decodes one RGB565 sample into its (red, green, blue) bytes.
pub fn decode_sample(c: u16) -> (r: (u8, u8, u8))
    ensures
        r.0 == red_of(c),
        r.1 == green_of(c),
        r.2 == blue_of(c),
        r.0 == (c / 2048) * 8,
        r.1 == ((c / 32) % 64) * 4,
        r.2 == (c % 32) * 8,
{
    proof {
        assert(red_of(c) == (c / 2048) * 8) by (bit_vector);
        assert(green_of(c) == ((c / 32) % 64) * 4) by (bit_vector);
        assert(blue_of(c) == (c % 32) * 8) by (bit_vector);
    }
    let red = (((c & 0xF800u16) >> 11u16) << 3u16) as u8;
    let green = (((c & 0x07E0u16) >> 5u16) << 2u16) as u8;
    let blue = ((c & 0x001Fu16) << 3u16) as u8;
    (red, green, blue)
}

/// Output pixel layout: three bytes per pixel, or four with a zero alpha byte.
#[derive(Clone, Copy, Debug, PartialEq, Eq, Structural)]
pub enum PixelLayout {
    Rgb,
    Rgba,
}

/// Bytes per output pixel.
pub open spec fn channels(layout: PixelLayout) -> nat {
    match layout {
        PixelLayout::Rgb => 3,
        PixelLayout::Rgba => 4,
    }
}

/// The little-endian 16-bit sample at index `i`.
pub open spec fn sample_at(data: Seq<u8>, i: int) -> u16 {
    (data[2 * i] + 256 * data[2 * i + 1]) as u16
}

/// Byte `k` of the output pixel decoded from sample `c`.
pub open spec fn component(c: u16, k: int) -> u8 {
    if k == 0 {
        red_of(c)
    } else if k == 1 {
        green_of(c)
    } else if k == 2 {
        blue_of(c)
    } else {
        0
    }
}

/// The decoded image of packed RGB565 bytes: one pixel per complete sample.
pub open spec fn decoded(data: Seq<u8>, layout: PixelLayout) -> Seq<u8> {
    Seq::new(
        (data.len() / 2) * channels(layout),
        |j: int| component(sample_at(data, j / channels(layout) as int), j % channels(layout) as int),
    )
}

proof fn lemma_pixel_index(i: int, k: int, ch: int)
    requires
        0 <= i,
        0 <= k < ch,
    ensures
        (i * ch + k) / ch == i,
        (i * ch + k) % ch == k,
{
    assert((i * ch + k) / ch == i) by (nonlinear_arith)
        requires
            0 <= i,
            0 <= k < ch,
    ;
    assert((i * ch + k) % ch == k) by (nonlinear_arith)
        requires
            0 <= i,
            0 <= k < ch,
    ;
}

/// Reads the little-endian sample at index `i`.
pub(crate) fn read_sample(data: &[u8], i: usize) -> (r: u16)
    requires
        2 * i + 1 < data@.len(),
    ensures
        r == sample_at(data@, i as int),
{
    let len = data.len();
    assert(2 * i + 1 < len);
    let lo = data[2 * i];
    let hi = data[2 * i + 1];
    let r = (lo as u16) | ((hi as u16) << 8u16);
    assert(r == (lo + 256 * hi) as u16) by (bit_vector)
        requires
            r == (lo as u16) | ((hi as u16) << 8u16),
    ;
    r
}

/// Decodes packed little-endian RGB565 bytes into 8-bit channels; a trailing
/// odd byte is not a sample and is ignored.
pub fn decode_rgb565(data: &[u8], layout: PixelLayout) -> (out: Vec<u8>)
    ensures
        out@ == decoded(data@, layout),
{
    let n = data.len() / 2;
    let ch: usize = match layout {
        PixelLayout::Rgb => 3,
        PixelLayout::Rgba => 4,
    };
    let mut out: Vec<u8> = Vec::new();
    let mut i: usize = 0;
    while i < n
        invariant
            n == data@.len() / 2,
            ch == channels(layout),
            i <= n,
            out@.len() == i * ch,
            forall|j: int|
                0 <= j < i * ch ==> #[trigger] out@[j] == component(
                    sample_at(data@, j / ch as int),
                    j % ch as int,
                ),
        decreases n - i,
    {
        let c = read_sample(data, i);
        let (red, green, blue) = decode_sample(c);
        let ghost before = out@;
        out.push(red);
        out.push(green);
        out.push(blue);
        if ch == 4 {
            out.push(0u8);
        }
        proof {
            assert((i + 1) * ch == i * ch + ch) by (nonlinear_arith);
            assert forall|j: int| 0 <= j < (i + 1) * ch implies #[trigger] out@[j] == component(
                sample_at(data@, j / ch as int),
                j % ch as int,
            ) by {
                if j >= i * ch {
                    let k = j - i * ch;
                    lemma_pixel_index(i as int, k, ch as int);
                    assert(j == i * ch + k);
                } else {
                    assert(out@[j] == before[j]);
                }
            }
        }
        i = i + 1;
    }
    assert(out@ =~= decoded(data@, layout));
    out
}

/// Converts a packed RGB565 buffer into a buffer of three bytes per pixel.
pub fn rgb565_to_rgb(data: &BytesMut) -> (r: BytesMut)
    ensures
        bytes_of(r) == decoded(bytes_of(*data), PixelLayout::Rgb),
{
    let v = decode_rgb565(buffer_bytes(data), PixelLayout::Rgb);
    buffer_from(v.as_slice())
}

/// Converts a packed RGB565 buffer into a buffer of four bytes per pixel, the
/// fourth (alpha) byte being zero.
pub fn rgb565_to_rgba(data: &BytesMut) -> (r: BytesMut)
    ensures
        bytes_of(r) == decoded(bytes_of(*data), PixelLayout::Rgba),
{
    let v = decode_rgb565(buffer_bytes(data), PixelLayout::Rgba);
    buffer_from(v.as_slice())
}

/// Why an image could not be decoded.
#[derive(Clone, Copy, Debug, PartialEq, Eq, Structural)]
pub enum PixelError {
    /// The raw length is not two bytes for each pixel of the given size.
    DimensionMismatch,
}

/// Decodes an RGB565 image of `width` by `height` pixels; the raw bytes must
/// be exactly two per pixel.
pub fn decode565(raw: &[u8], width: usize, height: usize, layout: PixelLayout) -> (r: Result<
    Vec<u8>,
    PixelError,
>)
    ensures
        raw@.len() == width * height * 2 <==> r is Ok,
        r is Ok ==> r->Ok_0@ == decoded(raw@, layout),
        r is Err ==> r->Err_0 == PixelError::DimensionMismatch,
{
    let raw_len = raw.len();
    match width.checked_mul(height) {
        Some(pixels) => match pixels.checked_mul(2) {
            Some(e) => {
                assert(e == width * height * 2);
                if raw_len == e {
                    Ok(decode_rgb565(raw, layout))
                } else {
                    Err(PixelError::DimensionMismatch)
                }
            },
            None => Err(PixelError::DimensionMismatch),
        },
        None => {
            proof {
                assert(width * height * 2 > usize::MAX) by (nonlinear_arith)
                    requires
                        width * height > usize::MAX,
                ;
            }
            Err(PixelError::DimensionMismatch)
        },
    }
}

} // verus!
