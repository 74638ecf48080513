use cappy3ds::assembler::{parse_image_data, CaptureField, CaptureHandler, SLOT_CAPACITY, TRANSFER_SIZE};
use cappy3ds::marker::{find_marker, marker_positions};
use cappy3ds::pixel::PixelLayout;

const MARKER: [u8; 4] = [0x33, 0xCC, 0x00, 0x00];

fn pattern(len: usize, seed: usize) -> Vec<u8> {
    (0..len).map(|i| ((i + seed) % 251) as u8).collect()
}

/// One field span: the marker followed by `len - 4` bytes free of markers.
fn field_span(len: usize, seed: usize) -> Vec<u8> {
    let mut v = MARKER.to_vec();
    v.extend(pattern(len - 4, seed));
    v
}

const FIELD_SPAN: usize = 801 * 496 + 8;

fn capture_dump(fields: usize) -> Vec<u8> {
    let mut dump = pattern(1000, 7);
    for i in 0..fields {
        dump.extend(field_span(FIELD_SPAN, i));
    }
    dump.extend(MARKER);
    dump.extend(pattern(2000, 3));
    dump
}

fn feed(handler: &mut CaptureHandler, data: &[u8], chunk: usize) -> Vec<CaptureField> {
    let mut out = Vec::new();
    for c in data.chunks(chunk) {
        if let Some(f) = handler.transfer_finished(c) {
            out.push(f);
        }
    }
    out
}

#[test]
fn find_marker_finds_the_first() {
    assert_eq!(find_marker(&[1, 0x33, 0xCC, 0x00, 0x00, 0x33, 0xCC, 0, 0]), Some(1));
    assert_eq!(find_marker(&[0x33, 0xCC, 0x00]), None);
    assert_eq!(find_marker(&[0x33, 0xCC, 0x00, 0x01, 0x33, 0xCC]), None);
    assert_eq!(find_marker(&[]), None);
}

#[test]
fn marker_positions_lists_every_marker() {
    let mut data = pattern(10, 0);
    data.extend(MARKER);
    data.extend(pattern(3, 0));
    data.extend(MARKER);
    data.extend(MARKER);
    assert_eq!(marker_positions(&data), vec![10, 17, 21]);
    assert_eq!(marker_positions(&pattern(600, 0)), Vec::<usize>::new());
}

#[test]
fn it_works() {
    let dump = capture_dump(3);
    let fields = parse_image_data(&dump, PixelLayout::Rgb);
    assert_eq!(fields.len(), 3);
    for f in &fields {
        assert_eq!(f.upper.len(), 400 * 240 * 3);
        assert_eq!(f.lower.len(), 320 * 240 * 3);
        assert_eq!(f.audio.len(), 801 * 8);
    }
}

#[test]
fn stream_fields_match_their_spans() {
    let dump = capture_dump(2);
    let fields = parse_image_data(&dump, PixelLayout::Rgba);
    assert_eq!(fields.len(), 2);
    let span = field_span(FIELD_SPAN, 1);
    let (upper, lower, audio) = cappy3ds::split::split_capture_buffer(&bytes::BytesMut::from(&span[..]));
    assert_eq!(fields[1].upper, cappy3ds::pixel::rgb565_to_rgba(&upper));
    assert_eq!(fields[1].lower, cappy3ds::pixel::rgb565_to_rgba(&lower));
    assert_eq!(fields[1].audio, cappy3ds::split::audio_samples(&audio));
    // the marker opens the audio of the field
    assert_eq!(fields[1].audio[0], i16::from_le_bytes([0x33, 0xCC]));
    assert_eq!(fields[1].audio[1], 0);
}

#[test]
fn stream_without_two_markers_has_no_field() {
    assert!(parse_image_data(&pattern(5000, 0), PixelLayout::Rgb).is_empty());
    let mut one = pattern(100, 0);
    one.extend(field_span(FIELD_SPAN, 0));
    assert!(parse_image_data(&one, PixelLayout::Rgb).is_empty());
}

#[test]
fn end_to_end_through_the_handler() {
    let dump = capture_dump(3);
    let mut handler = CaptureHandler::new(PixelLayout::Rgb);
    let fields = feed(&mut handler, &dump, TRANSFER_SIZE);
    assert_eq!(fields.len(), 3);
    for f in &fields {
        assert_eq!(f.upper.len(), 400 * 240 * 3);
        assert_eq!(f.lower.len(), 320 * 240 * 3);
    }
    let direct = parse_image_data(&dump, PixelLayout::Rgb);
    for (a, b) in fields.iter().zip(direct.iter()) {
        assert_eq!(a.upper, b.upper);
        assert_eq!(a.lower, b.lower);
        assert_eq!(a.audio, b.audio);
    }
    // the last marker leaves a field open
    assert!(handler.active_len() > 0);
    assert_eq!(handler.current_buffer(), 3);
    assert!(SLOT_CAPACITY >= FIELD_SPAN);
}

#[test]
fn k_markers_give_k_minus_one_fields() {
    let mut handler = CaptureHandler::with_config(4, SLOT_CAPACITY, PixelLayout::Rgb).unwrap();
    let mut emitted = 0;
    for k in 0..5 {
        let span = field_span(FIELD_SPAN, k);
        for c in span.chunks(TRANSFER_SIZE) {
            if handler.transfer_finished(c).is_some() {
                emitted += 1;
            }
        }
    }
    assert_eq!(emitted, 4);
    assert_eq!(handler.active_len(), FIELD_SPAN);
    assert_eq!(handler.current_buffer(), 0);
}

#[test]
fn closed_spans_of_the_wrong_size_are_dropped() {
    let mut handler = CaptureHandler::with_config(4, 100_000, PixelLayout::Rgb).unwrap();
    let mut emitted = 0;
    for k in 0..5 {
        if handler.transfer_finished(&field_span(600, k)).is_some() {
            emitted += 1;
        }
        assert!(handler.transfer_finished(&pattern(496, k)).is_none());
    }
    // four spans were closed, the cursor moved for each, none had full screens
    assert_eq!(emitted, 0);
    assert_eq!(handler.current_buffer(), 0);
    assert_eq!(handler.active_len(), 600 + 496);
}

#[test]
fn bytes_before_the_first_marker_are_discarded() {
    let mut handler = CaptureHandler::with_config(2, 10_000, PixelLayout::Rgb).unwrap();
    assert!(handler.transfer_finished(&pattern(300, 0)).is_none());
    assert_eq!(handler.active_len(), 0);
    let mut chunk = pattern(50, 0);
    chunk.extend(field_span(100, 0));
    assert!(handler.transfer_finished(&chunk).is_none());
    assert_eq!(handler.active_len(), 100);
    assert_eq!(handler.current_buffer(), 0);
}

#[test]
fn closing_marker_mid_chunk_seeds_the_next_field() {
    let mut handler = CaptureHandler::with_config(3, SLOT_CAPACITY, PixelLayout::Rgb).unwrap();
    let first = field_span(FIELD_SPAN, 0);
    let (body, rest) = first.split_at(FIELD_SPAN - 200);
    assert!(handler.transfer_finished(body).is_none());
    let mut chunk = rest.to_vec();
    chunk.extend(field_span(300, 2));
    let f = handler.transfer_finished(&chunk).unwrap();
    assert_eq!(f.audio.len(), 801 * 8);
    assert_eq!(f.upper.len(), 400 * 240 * 3);
    assert_eq!(handler.current_buffer(), 1);
    assert_eq!(handler.active_len(), 300);
}

#[test]
fn tiny_span_between_markers_is_dropped() {
    let mut handler = CaptureHandler::with_config(3, 10_000, PixelLayout::Rgb).unwrap();
    assert!(handler.transfer_finished(&MARKER).is_none());
    assert!(handler.transfer_finished(&field_span(100, 0)).is_none());
    assert_eq!(handler.current_buffer(), 1);
    assert_eq!(handler.active_len(), 100);
    let mut dump = MARKER.to_vec();
    dump.extend(field_span(FIELD_SPAN, 0));
    dump.extend(MARKER);
    assert_eq!(parse_image_data(&dump, PixelLayout::Rgb).len(), 1);
}

#[test]
fn oversized_field_is_skipped_and_capture_goes_on() {
    let mut dump = field_span(FIELD_SPAN, 0);
    dump.extend(field_span(802 * 496, 1));
    dump.extend(field_span(FIELD_SPAN, 2));
    dump.extend(MARKER);
    let fields = parse_image_data(&dump, PixelLayout::Rgb);
    assert_eq!(fields.len(), 2);
    let span = field_span(FIELD_SPAN, 2);
    let (upper, _, _) = cappy3ds::split::split_capture_buffer(&bytes::BytesMut::from(&span[..]));
    assert_eq!(fields[1].upper, cappy3ds::pixel::rgb565_to_rgb(&upper));
}

#[test]
fn overrun_advances_the_cursor_once() {
    let run = || {
        let mut handler = CaptureHandler::with_config(3, 1000, PixelLayout::Rgb).unwrap();
        let mut cursors = Vec::new();
        assert!(handler.transfer_finished(&field_span(300, 0)).is_none());
        cursors.push((handler.current_buffer(), handler.active_len()));
        for k in 0..4 {
            assert!(handler.transfer_finished(&pattern(500, k)).is_none());
            cursors.push((handler.current_buffer(), handler.active_len()));
        }
        // the next marker opens a new field without closing the dropped one
        assert!(handler.transfer_finished(&field_span(200, 9)).is_none());
        cursors.push((handler.current_buffer(), handler.active_len()));
        cursors
    };
    let first = run();
    assert_eq!(first, vec![(0, 300), (0, 800), (1, 0), (1, 0), (1, 0), (1, 200)]);
    assert_eq!(first, run());
}

#[test]
fn overrun_on_closing_drops_the_field() {
    let mut handler = CaptureHandler::with_config(2, 1000, PixelLayout::Rgb).unwrap();
    handler.transfer_finished(&field_span(900, 0));
    let mut chunk = pattern(200, 0);
    chunk.extend(field_span(100, 1));
    assert!(handler.transfer_finished(&chunk).is_none());
    assert_eq!(handler.current_buffer(), 1);
    assert_eq!(handler.active_len(), 100);
}

#[test]
fn seed_larger_than_a_slot_is_dropped() {
    let mut handler = CaptureHandler::with_config(2, 100, PixelLayout::Rgb).unwrap();
    assert!(handler.transfer_finished(&field_span(300, 0)).is_none());
    assert_eq!(handler.active_len(), 0);
    assert_eq!(handler.current_buffer(), 0);
}

#[test]
fn cursor_wraps_around_the_slots() {
    let mut handler = CaptureHandler::with_config(2, 10_000, PixelLayout::Rgb).unwrap();
    let mut cursors = Vec::new();
    for k in 0..4 {
        handler.transfer_finished(&field_span(500, k));
        cursors.push(handler.current_buffer());
    }
    assert_eq!(cursors, vec![0, 1, 0, 1]);
}

#[test]
fn handler_config_is_checked() {
    assert!(CaptureHandler::with_config(0, 100, PixelLayout::Rgb).is_none());
    assert!(CaptureHandler::with_config(1, usize::MAX, PixelLayout::Rgb).is_none());
    assert!(CaptureHandler::with_config(1, 0, PixelLayout::Rgb).is_some());
}
