use crate::assembler::{CaptureHandler, SLOT_CAPACITY, NUM_BUFFERS};
use crate::pixel::PixelLayout;
use crate::pool::TransferPool;
use vstd::prelude::*;

verus! {

/// Vendor id shared by both devices of the adapter.
pub const VENDOR_ID: u16 = 0x0752;

/// Product id of the USB controller before its firmware is loaded.
pub const CONTROLLER_PRODUCT_ID: u16 = 0x8613;

/// Product id of the capture front-end that appears once the firmware runs.
pub const FRONT_END_PRODUCT_ID: u16 = 0xf2c0;

/// Bulk endpoint that configuration commands are written to.
pub const COMMAND_ENDPOINT: u8 = 0x01;

/// Bulk endpoint that configuration answers are read from.
pub const ANSWER_ENDPOINT: u8 = 0x81;

/// Bulk endpoint that the capture stream arrives on.
pub const CAPTURE_ENDPOINT: u8 = 0x82;

/// Bulk reads kept in flight by default.
pub const TRANSFERS_IN_FLIGHT: usize = 10;

/// Longest wait, in milliseconds, for the front-end to appear after the
/// controller was flashed.
pub const FRONT_END_WAIT_MS: u64 = 10_000;

/// Pause, in milliseconds, between two looks for the front-end.
pub const FRONT_END_POLL_MS: u64 = 250;

/// Whether to look again for the front-end after `waited_ms` milliseconds
/// without it: only when the controller was just flashed (it re-enumerates as
/// the front-end) and the wait has not run out.
pub fn keep_waiting_for_front_end(flashed: bool, waited_ms: u64) -> (r: bool)
    ensures
        r <==> (flashed && waited_ms < FRONT_END_WAIT_MS),
{
    flashed && waited_ms < FRONT_END_WAIT_MS
}

/// Capture configuration of the adapter: slot count and capacity of the
/// rotating set, and the number of reads kept in flight.
pub struct Katsukity {
    pub num_buffers: usize,
    pub slot_capacity: usize,
    pub transfers_in_flight: usize,
}

impl Katsukity {
    /// The adapter's default configuration.
    pub fn new() -> (r: Self)
        ensures
            r.num_buffers == NUM_BUFFERS,
            r.slot_capacity == SLOT_CAPACITY,
            r.transfers_in_flight == TRANSFERS_IN_FLIGHT,
    {
        Katsukity {
            num_buffers: NUM_BUFFERS,
            slot_capacity: SLOT_CAPACITY,
            transfers_in_flight: TRANSFERS_IN_FLIGHT,
        }
    }

    /// A capture handler for this configuration; `None` when it has no slot
    /// or a capacity above `isize::MAX`.
    pub fn capture_handler(&self, layout: PixelLayout) -> (r: Option<CaptureHandler>)
        ensures
            r is Some <==> (self.num_buffers >= 1 && self.slot_capacity <= isize::MAX),
            r is Some ==> {
                let h = r->Some_0;
                &&& h.wf()
                &&& h.num_slots() == self.num_buffers
                &&& h.capacity() == self.slot_capacity
                &&& h.pixel_layout() == layout
                &&& h.cursor() == 0
                &&& h.active() == Seq::<u8>::empty()
            },
    {
        let r = CaptureHandler::with_config(self.num_buffers, self.slot_capacity, layout);
        proof {
            if r is Some {
                assert(r->Some_0.slot(0) == Seq::<u8>::empty());
            }
        }
        r
    }

    /// A transfer pool for this configuration.
    pub fn transfer_pool(&self) -> (r: TransferPool)
        ensures
            r.wf(),
            r.target() == self.transfers_in_flight,
            r.outstanding() == 0,
            !r.is_stopping(),
    {
        TransferPool::new(self.transfers_in_flight)
    }
}

} // verus!
