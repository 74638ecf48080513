use cappy3ds::bringup::{
    check_fpga_programmed, configure_fpga, configure_port, continue_after, fifo_start, fifo_stop,
    read_eeprom, send_firmware, BringupError, ErrorPolicy,
};
use cappy3ds::pool::TransferPool;
use cappy3ds::katsukity::{keep_waiting_for_front_end, FRONT_END_WAIT_MS};
use cappy3ds::Katsukity;

#[test]
fn firmware_upload_addresses_are_in_order() {
    let firmware: Vec<u8> = (0..2500).map(|i| (i % 256) as u8).collect();
    let writes = send_firmware(&firmware).unwrap();
    let addresses: Vec<u16> = writes.iter().map(|w| w.address).collect();
    assert_eq!(
        addresses,
        vec![0xE600, 0x0000, 0x000b, 0x0033, 0x0043, 0x0053, 0x0080, 0x0080 + 1023, 0x0080 + 2046, 0xE600]
    );
    assert_eq!(writes[0].data, vec![0x01]);
    assert_eq!(writes[1].data, vec![0x02, 0x09, 0x92]);
    assert_eq!(writes[2].data, vec![0x02, 0x0d, 0x9b]);
    assert_eq!(writes[3].data, vec![0x02, 0x0d, 0xe9]);
    assert_eq!(writes[4].data, vec![0x02, 0x08, 0x00]);
    assert_eq!(writes[5].data, vec![0x02, 0x08, 0x00]);
    assert_eq!(writes[6].data, firmware[..1023].to_vec());
    assert_eq!(writes[7].data, firmware[1023..2046].to_vec());
    assert_eq!(writes[8].data, firmware[2046..].to_vec());
    assert_eq!(writes[9].data, vec![0x00]);
}

#[test]
fn empty_firmware_only_resets() {
    let writes = send_firmware(&[]).unwrap();
    assert_eq!(writes.len(), 7);
    assert_eq!(writes[6].address, 0xE600);
}

#[test]
fn oversized_firmware_is_refused() {
    let largest = send_firmware(&vec![0u8; 0x10000 - 0x80]).unwrap();
    let pieces = (0x10000 - 0x80 + 1022) / 1023;
    assert_eq!(largest.len(), 7 + pieces);
    assert_eq!(largest[6 + pieces - 1].address as usize, 0x80 + 1023 * (pieces - 1));
    let total: usize = largest[6..6 + pieces].iter().map(|w| w.data.len()).sum();
    assert_eq!(total, 0x10000 - 0x80);
    assert_eq!(send_firmware(&vec![0u8; 0x10000 - 0x7F]).err(), Some(BringupError::FirmwareTooLarge));
}

#[test]
fn fpga_configuration_order() {
    let bitstream: Vec<u8> = (0..130).map(|i| i as u8).collect();
    let m = configure_fpga(&bitstream);
    assert_eq!(m.len(), 12 + 3 + 9);
    assert_eq!(m[0], vec![0x64, 0x60, 0x01, 0xff, 0xff, 0x60, 0x02, 0x00, 0xff, 0x00, 0xff]);
    assert_eq!(m[3], vec![0x70]);
    assert_eq!(m[11], vec![0x60, 0x01, 0x20, 0xff]);
    let mut first = vec![0x60, 0x1f];
    first.extend_from_slice(&bitstream[..62]);
    assert_eq!(m[12], first);
    assert_eq!(m[14], vec![0x60, 0x1f, 124, 125, 126, 127, 128, 129]);
    assert_eq!(m[15][..4], [0x60, 0x0b, 0x00, 0x00]);
    assert_eq!(
        m[23],
        vec![0x61, 0x07, 0x00, 0x0f, 0x00, 0x3e, 0x00, 0xf8, 0x00, 0x10, 0x00, 0x56, 0x80, 0x0a, 0x01, 0x00]
    );
}

#[test]
fn fpga_configuration_without_bitstream() {
    assert_eq!(configure_fpga(&[]).len(), 21);
}

#[test]
fn small_command_sets() {
    let e = read_eeprom();
    assert_eq!(e.len(), 8);
    assert_eq!(e[0], vec![0x38, 0x00, 0x10, 0x30]);
    assert_eq!(e[7], vec![0x38, 0x70, 0x10, 0x30]);
    assert_eq!(configure_port(), vec![0x65]);
    assert_eq!(fifo_start(), vec![vec![0x5b, 0x59, 0x03], vec![0x40]]);
    assert_eq!(fifo_stop(), vec![0x41]);
}

#[test]
fn fpga_probe_answer() {
    assert!(!check_fpga_programmed(&[0x09, 0x02, 0x27, 0x00, 0x01, 0x01, 0x00]));
    assert!(check_fpga_programmed(&[0x28, 0x43, 0x29, 0x74, 0x61, 0x6e, 0xff]));
    assert!(check_fpga_programmed(&[0x09, 0x02, 0x27, 0x00, 0x01, 0x01]));
    assert!(check_fpga_programmed(&[]));
}

#[test]
fn error_policy() {
    assert!(continue_after(ErrorPolicy::BestEffort, false));
    assert!(continue_after(ErrorPolicy::BestEffort, true));
    assert!(!continue_after(ErrorPolicy::FailFast, false));
    assert!(continue_after(ErrorPolicy::FailFast, true));
}

#[test]
fn pool_keeps_target_in_flight_then_drains() {
    let mut pool = Katsukity::new().transfer_pool();
    let mut submitted = 0;
    while pool.submit() {
        submitted += 1;
    }
    assert_eq!(submitted, 10);
    for _ in 0..25 {
        assert!(pool.on_completion());
        assert_eq!(pool.in_flight(), 10);
    }
    pool.request_stop();
    assert!(!pool.submit());
    let mut completions = 0;
    while !pool.is_drained() {
        assert!(!pool.on_completion());
        completions += 1;
    }
    assert_eq!(completions, 10);
    assert!(!pool.on_completion());
    assert_eq!(pool.in_flight(), 0);
}

#[test]
fn pool_with_zero_target() {
    let mut pool = TransferPool::new(0);
    assert!(!pool.submit());
    assert!(!pool.is_drained());
    pool.request_stop();
    assert!(pool.is_drained());
}

#[test]
fn katsukity_defaults() {
    let k = Katsukity::new();
    assert_eq!(k.num_buffers, 20);
    assert_eq!(k.transfers_in_flight, 10);
    let h = k.capture_handler(cappy3ds::pixel::PixelLayout::Rgba).unwrap();
    assert_eq!(h.current_buffer(), 0);
    assert_eq!(h.active_len(), 0);
}

#[test]
fn front_end_wait() {
    assert!(keep_waiting_for_front_end(true, 0));
    assert!(keep_waiting_for_front_end(true, FRONT_END_WAIT_MS - 1));
    assert!(!keep_waiting_for_front_end(true, FRONT_END_WAIT_MS));
    assert!(!keep_waiting_for_front_end(false, 0));
}
