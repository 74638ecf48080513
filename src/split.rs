use crate::buffer::{buffer_bytes, bytes_of};
use crate::pixel::{read_sample, sample_at};
use bytes::BytesMut;
use vstd::prelude::*;
use vstd::slice::slice_subrange;

verus! {

/// Bytes in one period of the interleaved field stream.
pub const PERIOD: usize = 496;

/// Audio bytes carried in each period.
pub const AUDIO_BYTES: usize = 16;

/// Video bytes carried in each period (one screen line).
pub const LINE_BYTES: usize = 480;

/// Periods at the start of a field that carry audio only.
pub const PREAMBLE_PERIODS: usize = 81;

/// The period at which the lower screen's last line comes first.
pub const LOWER_LAST_PERIOD: usize = 400;

/// Upper-screen bytes carried by period `p`.
pub open spec fn period_upper(data: Seq<u8>, p: int) -> Seq<u8> {
    if p > 400 {
        data.subrange(p * 496, p * 496 + 480)
    } else {
        Seq::empty()
    }
}

/// Lower-screen bytes carried by period `p`.
pub open spec fn period_lower(data: Seq<u8>, p: int) -> Seq<u8> {
    if 81 <= p < 400 {
        data.subrange(p * 496 + 16, p * 496 + 496)
    } else if p == 400 {
        data.subrange(p * 496, p * 496 + 480)
    } else {
        Seq::empty()
    }
}

/// Audio bytes carried by period `p`.
pub open spec fn period_audio(data: Seq<u8>, p: int) -> Seq<u8> {
    if p < 400 {
        data.subrange(p * 496, p * 496 + 16)
    } else {
        data.subrange(p * 496 + 480, p * 496 + 496)
    }
}

/// Upper-screen bytes of the first `k` periods.
pub open spec fn upper_upto(data: Seq<u8>, k: nat) -> Seq<u8>
    decreases k,
{
    if k == 0 {
        Seq::empty()
    } else {
        upper_upto(data, (k - 1) as nat) + period_upper(data, k - 1)
    }
}

/// Lower-screen bytes of the first `k` periods.
pub open spec fn lower_upto(data: Seq<u8>, k: nat) -> Seq<u8>
    decreases k,
{
    if k == 0 {
        Seq::empty()
    } else {
        lower_upto(data, (k - 1) as nat) + period_lower(data, k - 1)
    }
}

/// Audio bytes of the first `k` periods.
pub open spec fn audio_upto(data: Seq<u8>, k: nat) -> Seq<u8>
    decreases k,
{
    if k == 0 {
        Seq::empty()
    } else {
        audio_upto(data, (k - 1) as nat) + period_audio(data, k - 1)
    }
}

/// Number of complete periods in a field span.
pub open spec fn periods(data: Seq<u8>) -> nat {
    data.len() / 496
}

/// The upper-screen region of a field span.
pub open spec fn upper_region(data: Seq<u8>) -> Seq<u8> {
    upper_upto(data, periods(data))
}

/// The lower-screen region of a field span.
pub open spec fn lower_region(data: Seq<u8>) -> Seq<u8> {
    lower_upto(data, periods(data))
}

/// The audio region of a field span.
pub open spec fn audio_region(data: Seq<u8>) -> Seq<u8> {
    audio_upto(data, periods(data))
}

/// Length of the lower-screen bytes of the first `k` periods.
pub open spec fn lower_len(k: nat) -> nat {
    if k <= 81 {
        0
    } else if k <= 401 {
        (480 * (k - 81)) as nat
    } else {
        480 * 320
    }
}

/// Length of the upper-screen bytes of the first `k` periods.
pub open spec fn upper_len(k: nat) -> nat {
    if k <= 401 {
        0
    } else {
        (480 * (k - 401)) as nat
    }
}

/// The three regions of the first `k` periods have lengths `upper_len(k)`,
/// `lower_len(k)` and `16 * k`.
pub proof fn lemma_region_lengths(data: Seq<u8>, k: nat)
    requires
        k * 496 <= data.len(),
    ensures
        upper_upto(data, k).len() == upper_len(k),
        lower_upto(data, k).len() == lower_len(k),
        audio_upto(data, k).len() == 16 * k,
    decreases k,
{
    if k > 0 {
        let j = (k - 1) as nat;
        assert(j * 496 + 496 == k * 496) by (nonlinear_arith)
            requires
                j == k - 1,
        ;
        lemma_region_lengths(data, j);
    }
}

/// Splits one field span into its (upper screen, lower screen, audio)
/// regions, walking it period by period; a trailing partial period is left out.
pub fn split_capture_buffer(data: &BytesMut) -> (r: (BytesMut, BytesMut, BytesMut))
    ensures
        bytes_of(r.0) == upper_region(bytes_of(*data)),
        bytes_of(r.1) == lower_region(bytes_of(*data)),
        bytes_of(r.2) == audio_region(bytes_of(*data)),
{
    let bytes = buffer_bytes(data);
    let len = bytes.len();
    let ghost d = bytes@;
    let mut upper = BytesMut::with_capacity(400 * 240 * 2);
    let mut lower = BytesMut::with_capacity(320 * 240 * 2);
    let mut sound = BytesMut::with_capacity(720 * 8 * 2);
    let mut pos: usize = 0;
    let ghost mut p: nat = 0;
    while len - pos >= PERIOD
        invariant
            d == bytes@,
            d == bytes_of(*data),
            len == d.len(),
            len <= isize::MAX,
            pos == p * 496,
            pos <= len,
            bytes_of(upper) == upper_upto(d, p),
            bytes_of(lower) == lower_upto(d, p),
            bytes_of(sound) == audio_upto(d, p),
        decreases len - pos,
    {
        proof {
            lemma_region_lengths(d, p);
        }
        if pos < PREAMBLE_PERIODS * PERIOD {
            sound.extend_from_slice(slice_subrange(bytes, pos, pos + AUDIO_BYTES));
            pos = pos + PERIOD;
        } else if pos < LOWER_LAST_PERIOD * PERIOD {
            sound.extend_from_slice(slice_subrange(bytes, pos, pos + AUDIO_BYTES));
            pos = pos + AUDIO_BYTES;
            lower.extend_from_slice(slice_subrange(bytes, pos, pos + LINE_BYTES));
            pos = pos + LINE_BYTES;
        } else if pos == LOWER_LAST_PERIOD * PERIOD {
            lower.extend_from_slice(slice_subrange(bytes, pos, pos + LINE_BYTES));
            pos = pos + LINE_BYTES;
            sound.extend_from_slice(slice_subrange(bytes, pos, pos + AUDIO_BYTES));
            pos = pos + AUDIO_BYTES;
        } else {
            upper.extend_from_slice(slice_subrange(bytes, pos, pos + LINE_BYTES));
            pos = pos + LINE_BYTES;
            sound.extend_from_slice(slice_subrange(bytes, pos, pos + AUDIO_BYTES));
            pos = pos + AUDIO_BYTES;
        }
        proof {
            p = p + 1;
            assert(upper_upto(d, p) == upper_upto(d, (p - 1) as nat) + period_upper(d, p - 1));
            assert(lower_upto(d, p) == lower_upto(d, (p - 1) as nat) + period_lower(d, p - 1));
            assert(audio_upto(d, p) == audio_upto(d, (p - 1) as nat) + period_audio(d, p - 1));
        }
    }
    proof {
        assert(p == periods(d)) by (nonlinear_arith)
            requires
                pos == p * 496,
                pos <= len,
                len - pos < 496,
                d.len() == len,
        ;
    }
    (upper, lower, sound)
}

/// Bytes that splitting keeps from the first `k` periods.
pub open spec fn kept_len(k: nat) -> nat {
    if k <= 81 {
        16 * k
    } else {
        (496 * k - 480 * 81) as nat
    }
}

/// Splitting loses no byte but those it is meant to drop: the three regions
/// together hold every byte of the complete periods except the 480
/// video-less bytes of each preamble period (the first 81).
pub proof fn lemma_split_keeps_all_but_preamble(data: Seq<u8>)
    ensures
        upper_region(data).len() + lower_region(data).len() + audio_region(data).len() == kept_len(
            periods(data),
        ),
        periods(data) <= 81 ==> upper_region(data).len() + lower_region(data).len() == 0,
{
    let k = periods(data);
    assert(k * 496 <= data.len()) by (nonlinear_arith)
        requires
            k == data.len() / 496,
    ;
    lemma_region_lengths(data, k);
}

/// A field of 801 or more complete periods yields a full lower screen
/// (320 lines) and, at exactly 801 periods, a full upper screen (400 lines).
pub proof fn lemma_full_field_regions(data: Seq<u8>)
    requires
        periods(data) >= 801,
    ensures
        lower_region(data).len() == 320 * 240 * 2,
        periods(data) == 801 ==> upper_region(data).len() == 400 * 240 * 2,
        audio_region(data).len() == 16 * periods(data),
{
    let k = periods(data);
    assert(k * 496 <= data.len()) by (nonlinear_arith)
        requires
            k == data.len() / 496,
    ;
    lemma_region_lengths(data, k);
}

/// The signed value of a little-endian 16-bit sample.
pub open spec fn le_i16(lo: u8, hi: u8) -> int {
    let v = lo + 256 * hi;
    if v >= 32768 {
        v - 65536
    } else {
        v
    }
}

/// Reads little-endian signed 16-bit audio samples; a trailing odd byte is
/// not a sample and is ignored.
pub fn audio_samples(data: &[u8]) -> (r: Vec<i16>)
    ensures
        r@.len() == data@.len() / 2,
        forall|i: int|
            0 <= i < r@.len() ==> #[trigger] r@[i] as int == le_i16(data@[2 * i], data@[2 * i + 1]),
{
    let n = data.len() / 2;
    let mut r: Vec<i16> = Vec::new();
    let mut i: usize = 0;
    while i < n
        invariant
            n == data@.len() / 2,
            i <= n,
            r@.len() == i,
            forall|j: int|
                0 <= j < i ==> #[trigger] r@[j] as int == le_i16(data@[2 * j], data@[2 * j + 1]),
        decreases n - i,
    {
        let len = data.len();
        assert(2 * i + 1 < len);
        let c = read_sample(data, i);
        let lo = data[2 * i];
        let hi = data[2 * i + 1];
        let v = #[verifier::truncate] (c as i16);
        proof {
            assert(c == (lo + 256 * hi) as u16);
            assert(lo + 256 * hi < 65536);
            assert(c as int == lo + 256 * hi);
            assert(v as int == if c >= 32768 { c - 65536 } else { c as int }) by (bit_vector)
                requires
                    v == c as i16,
            ;
        }
        r.push(v);
        i = i + 1;
    }
    r
}

} // verus!
