use vstd::prelude::*;
use vstd::slice::{slice_subrange, slice_to_vec};

verus! {

/// Vendor request that writes the controller's memory.
pub const FIRMWARE_REQUEST: u8 = 0xA0;

/// Controller register that holds or releases its CPU reset.
pub const CPU_RESET_ADDRESS: u16 = 0xE600;

/// Largest firmware piece sent in one control write.
pub const FIRMWARE_CHUNK: usize = 1023;

/// Address at which the firmware image is loaded.
pub const FIRMWARE_BASE: u16 = 0x0080;

/// Bitstream bytes carried by one bulk write.
pub const BITSTREAM_CHUNK: usize = 62;

/// One vendor control write to the controller: target address and payload.
pub struct ControlWrite {
    pub address: u16,
    pub data: Vec<u8>,
}

/// Why a bring-up plan could not be made.
#[derive(Clone, Copy, Debug, PartialEq, Eq, Structural)]
pub enum BringupError {
    /// The firmware would run past the end of the controller's 16-bit address space.
    FirmwareTooLarge,
}

/// The write `w` targets `address` with payload `data`.
pub open spec fn write_is(w: ControlWrite, address: u16, data: Seq<u8>) -> bool {
    w.address == address && w.data@ == data
}

/// Number of pieces of at most `size` bytes that `n` bytes are cut into.
pub open spec fn pieces(n: nat, size: nat) -> nat
    recommends
        size > 0,
{
    ((n + size - 1) / (size as int)) as nat
}

/// Piece `k` of `b` when cut into pieces of `size` bytes, the last maybe shorter.
pub open spec fn piece(b: Seq<u8>, k: int, size: int) -> Seq<u8> {
    let lo = k * size;
    let hi = if lo + size <= b.len() {
        lo + size
    } else {
        b.len() as int
    };
    b.subrange(lo, hi)
}

/// Firmware of `n` bytes fits the 16-bit address space after the load address.
pub open spec fn firmware_fits(n: nat) -> bool {
    0x80 + n <= 0x10000
}

/// Plans the controller's firmware upload, in order: hold the CPU in reset,
/// five fixed register writes, the firmware in pieces of at most 1023 bytes
/// at consecutive addresses from 0x0080, and release from reset.
pub fn send_firmware(firmware: &[u8]) -> (r: Result<Vec<ControlWrite>, BringupError>)
    ensures
        r is Ok <==> firmware_fits(firmware@.len()),
        r is Err ==> r->Err_0 == BringupError::FirmwareTooLarge,
        r is Ok ==> {
            let w = r->Ok_0@;
            let n = pieces(firmware@.len(), 1023);
            &&& w.len() == 7 + n
            &&& write_is(w[0], 0xE600, seq![0x01u8])
            &&& write_is(w[1], 0x0000, seq![0x02u8, 0x09u8, 0x92u8])
            &&& write_is(w[2], 0x000b, seq![0x02u8, 0x0du8, 0x9bu8])
            &&& write_is(w[3], 0x0033, seq![0x02u8, 0x0du8, 0xe9u8])
            &&& write_is(w[4], 0x0043, seq![0x02u8, 0x08u8, 0x00u8])
            &&& write_is(w[5], 0x0053, seq![0x02u8, 0x08u8, 0x00u8])
            &&& forall|k: int|
                0 <= k < n ==> #[trigger] w[6 + k].address == 0x80 + 1023 * k && w[6 + k].data@
                    == piece(firmware@, k, 1023)
            &&& write_is(w[6 + n as int], 0xE600, seq![0x00u8])
        },
{
    let len = firmware.len();
    if len > 0x10000 - 0x80 {
        return Err(BringupError::FirmwareTooLarge);
    }
    let mut w: Vec<ControlWrite> = Vec::new();
    w.push(ControlWrite { address: CPU_RESET_ADDRESS, data: vec![0x01u8] });
    w.push(ControlWrite { address: 0x0000, data: vec![0x02u8, 0x09u8, 0x92u8] });
    w.push(ControlWrite { address: 0x000b, data: vec![0x02u8, 0x0du8, 0x9bu8] });
    w.push(ControlWrite { address: 0x0033, data: vec![0x02u8, 0x0du8, 0xe9u8] });
    w.push(ControlWrite { address: 0x0043, data: vec![0x02u8, 0x08u8, 0x00u8] });
    w.push(ControlWrite { address: 0x0053, data: vec![0x02u8, 0x08u8, 0x00u8] });
    assert(w@[0].data@ =~= seq![0x01u8]);
    assert(w@[1].data@ =~= seq![0x02u8, 0x09u8, 0x92u8]);
    assert(w@[2].data@ =~= seq![0x02u8, 0x0du8, 0x9bu8]);
    assert(w@[3].data@ =~= seq![0x02u8, 0x0du8, 0xe9u8]);
    assert(w@[4].data@ =~= seq![0x02u8, 0x08u8, 0x00u8]);
    assert(w@[5].data@ =~= seq![0x02u8, 0x08u8, 0x00u8]);
    let ghost head = w@;
    let mut offset: usize = 0;
    let ghost mut k: int = 0;
    while offset < len
        invariant
            len == firmware@.len(),
            len <= 0x10000 - 0x80,
            offset == if 1023 * k <= len {
                1023 * k
            } else {
                len as int
            },
            0 <= k,
            head.len() == 6,
            offset <= len,
            offset < len ==> k < pieces(len as nat, 1023),
            offset >= len ==> k == pieces(len as nat, 1023),
            w@.len() == 6 + k,
            forall|i: int| 0 <= i < 6 ==> w@[i] == head[i],
            forall|j: int|
                0 <= j < k ==> #[trigger] w@[6 + j].address == 0x80 + 1023 * j && w@[6 + j].data@
                    == piece(firmware@, j, 1023),
        decreases len - offset,
    {
        let end = if len - offset >= FIRMWARE_CHUNK {
            offset + FIRMWARE_CHUNK
        } else {
            len
        };
        assert(offset == 1023 * k);
        let chunk = slice_subrange(firmware, offset, end);
        let data = slice_to_vec(chunk);
        let rom_address = (FIRMWARE_BASE as usize + offset) as u16;
        let ghost before = w@;
        w.push(ControlWrite { address: rom_address, data });
        assert(w@[6 + k].data@ == piece(firmware@, k, 1023));
        assert forall|j: int| 0 <= j < k implies #[trigger] w@[6 + j] == before[6 + j] by {}
        offset = end;
        proof {
            k = k + 1;
            if offset < len {
                assert(1023 * k < len);
                assert(k < (len + 1022) / 1023) by (nonlinear_arith)
                    requires
                        1023 * k < len,
                ;
            } else {
                assert(1023 * (k - 1) < len <= 1023 * k);
                assert(k == (len + 1022) / 1023) by (nonlinear_arith)
                    requires
                        1023 * (k - 1) < len <= 1023 * k,
                ;
            }
        }
    }
    w.push(ControlWrite { address: CPU_RESET_ADDRESS, data: vec![0x00u8] });
    assert(w@[6 + k].data@ =~= seq![0x00u8]);
    Ok(w)
}


#[verifier::external_type_specification]
#[verifier::external_body]
pub struct ExFromHexError(hex::FromHexError);

/// The value of a hexadecimal digit, either case.
pub open spec fn hex_digit(c: char) -> Option<u8> {
    let v = c as u32;
    if 48 <= v <= 57 {
        Some((v - 48) as u8)
    } else if 97 <= v <= 102 {
        Some((v - 87) as u8)
    } else if 65 <= v <= 70 {
        Some((v - 55) as u8)
    } else {
        None
    }
}

/// The bytes that hexadecimal text `t` spells, two digits per byte, high
/// digit first; `None` when its length is odd or a character is no digit.
pub open spec fn hex_decoded(t: Seq<char>) -> Option<Seq<u8>> {
    if t.len() % 2 == 0 && forall|i: int| 0 <= i < t.len() ==> #[trigger] hex_digit(t[i]) is Some {
        Some(
            Seq::new(
                t.len() / 2,
                |i: int| (16 * hex_digit(t[2 * i])->Some_0 + hex_digit(t[2 * i + 1])->Some_0) as u8,
            ),
        )
    } else {
        None
    }
}

/// Relies on `hex::decode`: the bytes spelled by hexadecimal text, or an
/// error for odd length or a character that is no hexadecimal digit.
#[verifier::external_body]
fn decode_hex(text: &str) -> (r: Result<Vec<u8>, hex::FromHexError>)
    ensures
        r is Ok <==> hex_decoded(text@) is Some,
        r is Ok ==> r->Ok_0@ == hex_decoded(text@)->Some_0,
{
    hex::decode(text)
}

/// Text of the fixed commands that prepare the FPGA for its bitstream.
pub open spec fn setup_text(i: int) -> Seq<char> {
    if i == 0 {
        "646001ffff600200ff00ff"@
    } else if i == 1 {
        "600230ff60c9600120ff610400ff00ff00ff80ff600101ff"@
    } else if i == 2 {
        "600230ff60c9600120ff610400ff00ff00ff80ff600101ff"@
    } else if i == 3 {
        "70"@
    } else if i == 4 {
        "600230ff60d0600230ff60cb600200ff00ff"@
    } else if i == 5 {
        "600230ff60f1600120ff610800ff00ff00ff00ff00ff00ff00ff80ff600101ff600200ff00ff"@
    } else if i == 6 {
        "600200ff00ff600230ff60cb600230ff60c56664600230ff60c5"@
    } else if i == 7 {
        "600120ff"@
    } else if i == 8 {
        "60040000000000008000"@
    } else if i == 9 {
        "600101ff"@
    } else if i == 10 {
        "600230ff60c5"@
    } else {
        "600120ff"@
    }
}

/// The `i`-th fixed command sent before the bitstream.
fn setup_command_text(i: usize) -> (r: &'static str)
    requires
        i < 12,
    ensures
        r@ == setup_text(i as int),
{
    if i == 0 {
        "646001ffff600200ff00ff"
    } else if i == 1 {
        "600230ff60c9600120ff610400ff00ff00ff80ff600101ff"
    } else if i == 2 {
        "600230ff60c9600120ff610400ff00ff00ff80ff600101ff"
    } else if i == 3 {
        "70"
    } else if i == 4 {
        "600230ff60d0600230ff60cb600200ff00ff"
    } else if i == 5 {
        "600230ff60f1600120ff610800ff00ff00ff00ff00ff00ff00ff80ff600101ff600200ff00ff"
    } else if i == 6 {
        "600200ff00ff600230ff60cb600230ff60c56664600230ff60c5"
    } else if i == 7 {
        "600120ff"
    } else if i == 8 {
        "60040000000000008000"
    } else if i == 9 {
        "600101ff"
    } else if i == 10 {
        "600230ff60c5"
    } else {
        "600120ff"
    }
}

/// Text of the fixed commands that set colour format and timing after the bitstream.
pub open spec fn finish_text(i: int) -> Seq<char> {
    if i == 0 {
        "600b00000004000000040000000400000004000000048000"@
    } else if i == 1 {
        "600101ff"@
    } else if i == 2 {
        "600230ff60d6600200ff00ff600230ff60ff600120ff"@
    } else if i == 3 {
        "60018000"@
    } else if i == 4 {
        "600101ff"@
    } else if i == 5 {
        "600230ff60cc600200ff00ff600230ff60ff600230ff60ff"@
    } else if i == 6 {
        "71038f9db726685e0140c300000230ff6065"@
    } else if i == 7 {
        "64600200ff00ff600230ff60c2600120ff"@
    } else {
        "6107000f003e00f800100056800a0100"@
    }
}

/// The `i`-th fixed command sent after the bitstream.
fn finish_command_text(i: usize) -> (r: &'static str)
    requires
        i < 9,
    ensures
        r@ == finish_text(i as int),
{
    if i == 0 {
        "600b00000004000000040000000400000004000000048000"
    } else if i == 1 {
        "600101ff"
    } else if i == 2 {
        "600230ff60d6600200ff00ff600230ff60ff600120ff"
    } else if i == 3 {
        "60018000"
    } else if i == 4 {
        "600101ff"
    } else if i == 5 {
        "600230ff60cc600200ff00ff600230ff60ff600230ff60ff"
    } else if i == 6 {
        "71038f9db726685e0140c300000230ff6065"
    } else if i == 7 {
        "64600200ff00ff600230ff60c2600120ff"
    } else {
        "6107000f003e00f800100056800a0100"
    }
}

/// Every fixed FPGA command text is valid hexadecimal.
pub open spec fn command_texts_valid() -> bool {
    &&& forall|i: int| 0 <= i < 12 ==> #[trigger] hex_decoded(setup_text(i)) is Some
    &&& forall|i: int| 0 <= i < 9 ==> #[trigger] hex_decoded(finish_text(i)) is Some
}

/// Each setup command text is valid hexadecimal.
proof fn lemma_setup_text_valid(i: int)
    requires
        0 <= i < 12,
    ensures
        hex_decoded(setup_text(i)) is Some,
{
    if i == 0 {
        reveal_strlit("646001ffff600200ff00ff");
    } else if i == 1 {
        reveal_strlit("600230ff60c9600120ff610400ff00ff00ff80ff600101ff");
    } else if i == 2 {
        reveal_strlit("600230ff60c9600120ff610400ff00ff00ff80ff600101ff");
    } else if i == 3 {
        reveal_strlit("70");
    } else if i == 4 {
        reveal_strlit("600230ff60d0600230ff60cb600200ff00ff");
    } else if i == 5 {
        reveal_strlit("600230ff60f1600120ff610800ff00ff00ff00ff00ff00ff00ff80ff600101ff600200ff00ff");
    } else if i == 6 {
        reveal_strlit("600200ff00ff600230ff60cb600230ff60c56664600230ff60c5");
    } else if i == 7 {
        reveal_strlit("600120ff");
    } else if i == 8 {
        reveal_strlit("60040000000000008000");
    } else if i == 9 {
        reveal_strlit("600101ff");
    } else if i == 10 {
        reveal_strlit("600230ff60c5");
    } else {
        reveal_strlit("600120ff");
    }
}

/// Each finishing command text is valid hexadecimal.
proof fn lemma_finish_text_valid(i: int)
    requires
        0 <= i < 9,
    ensures
        hex_decoded(finish_text(i)) is Some,
{
    if i == 0 {
        reveal_strlit("600b00000004000000040000000400000004000000048000");
    } else if i == 1 {
        reveal_strlit("600101ff");
    } else if i == 2 {
        reveal_strlit("600230ff60d6600200ff00ff600230ff60ff600120ff");
    } else if i == 3 {
        reveal_strlit("60018000");
    } else if i == 4 {
        reveal_strlit("600101ff");
    } else if i == 5 {
        reveal_strlit("600230ff60cc600200ff00ff600230ff60ff600230ff60ff");
    } else if i == 6 {
        reveal_strlit("71038f9db726685e0140c300000230ff6065");
    } else if i == 7 {
        reveal_strlit("64600200ff00ff600230ff60c2600120ff");
    } else {
        reveal_strlit("6107000f003e00f800100056800a0100");
    }
}

/// Every fixed FPGA command text is valid hexadecimal.
pub proof fn lemma_command_texts_valid()
    ensures
        command_texts_valid(),
{
    assert forall|i: int| 0 <= i < 12 implies #[trigger] hex_decoded(setup_text(i)) is Some by {
        lemma_setup_text_valid(i);
    }
    assert forall|i: int| 0 <= i < 9 implies #[trigger] hex_decoded(finish_text(i)) is Some by {
        lemma_finish_text_valid(i);
    }
}

/// Bulk message `k` of a bitstream upload: the `60 1F` header and the
/// bitstream's `k`-th piece of at most 62 bytes.
pub open spec fn bitstream_message(b: Seq<u8>, k: int) -> Seq<u8> {
    seq![0x60u8, 0x1fu8] + piece(b, k, 62)
}

/// Plans the FPGA configuration as the ordered bulk messages to send: the
/// fixed setup commands, the bitstream in headed pieces of 62 bytes, and the
/// fixed finishing commands.
pub fn configure_fpga(bitstream: &[u8]) -> (r: Vec<Vec<u8>>)
    ensures
        ({
            let m = r@;
            let n = pieces(bitstream@.len(), 62);
            &&& m.len() == 12 + n + 9
            &&& forall|i: int| 0 <= i < 12 ==> #[trigger] m[i]@ == hex_decoded(setup_text(i))->Some_0
            &&& forall|k: int| 0 <= k < n ==> #[trigger] m[12 + k]@ == bitstream_message(bitstream@, k)
            &&& forall|i: int|
                0 <= i < 9 ==> #[trigger] m[12 + n + i]@ == hex_decoded(finish_text(i))->Some_0
        }),
{
    proof {
        lemma_command_texts_valid();
    }
    let mut m: Vec<Vec<u8>> = Vec::new();
    let mut i: usize = 0;
    while i < 12
        invariant
            i <= 12,
            command_texts_valid(),
            m@.len() == i,
            forall|j: int| 0 <= j < i ==> #[trigger] m@[j]@ == hex_decoded(setup_text(j))->Some_0,
        decreases 12 - i,
    {
        match decode_hex(setup_command_text(i)) {
            Ok(v) => m.push(v),
            Err(_) => {
                assert(hex_decoded(setup_text(i as int)) is Some);
                unreached()
            },
        }
        i = i + 1;
    }
    let len = bitstream.len();
    let mut offset: usize = 0;
    let ghost mut k: int = 0;
    while offset < len
        invariant
            len == bitstream@.len(),
            0 <= k,
            offset == if 62 * k <= len {
                62 * k
            } else {
                len as int
            },
            offset <= len,
            offset < len ==> k < pieces(len as nat, 62),
            offset >= len ==> k == pieces(len as nat, 62),
            m@.len() == 12 + k,
            forall|j: int| 0 <= j < 12 ==> #[trigger] m@[j]@ == hex_decoded(setup_text(j))->Some_0,
            forall|j: int| 0 <= j < k ==> #[trigger] m@[12 + j]@ == bitstream_message(bitstream@, j),
        decreases len - offset,
    {
        assert(offset == 62 * k);
        let end = if len - offset >= BITSTREAM_CHUNK {
            offset + BITSTREAM_CHUNK
        } else {
            len
        };
        let chunk = slice_subrange(bitstream, offset, end);
        let mut msg: Vec<u8> = vec![0x60u8, 0x1fu8];
        let mut t: usize = 0;
        while t < chunk.len()
            invariant
                msg@ == seq![0x60u8, 0x1fu8] + chunk@.subrange(0, t as int),
                t <= chunk@.len(),
            decreases chunk@.len() - t,
        {
            msg.push(chunk[t]);
            t = t + 1;
            assert(msg@ =~= seq![0x60u8, 0x1fu8] + chunk@.subrange(0, t as int));
        }
        assert(chunk@.subrange(0, chunk@.len() as int) =~= chunk@);
        let ghost before = m@;
        m.push(msg);
        assert(m@[12 + k]@ == bitstream_message(bitstream@, k));
        assert forall|j: int| 0 <= j < k implies #[trigger] m@[12 + j] == before[12 + j] by {}
        assert forall|j: int| 0 <= j < 12 implies #[trigger] m@[j] == before[j] by {}
        offset = end;
        proof {
            k = k + 1;
            if offset < len {
                assert(62 * k < len);
                assert(k < (len + 61) / 62) by (nonlinear_arith)
                    requires
                        62 * k < len,
                ;
            } else {
                assert(62 * (k - 1) < len <= 62 * k);
                assert(k == (len + 61) / 62) by (nonlinear_arith)
                    requires
                        62 * (k - 1) < len <= 62 * k,
                ;
            }
        }
    }
    let ghost n = k;
    let mut i: usize = 0;
    while i < 9
        invariant
            i <= 9,
            command_texts_valid(),
            n == pieces(bitstream@.len(), 62),
            m@.len() == 12 + n + i,
            forall|j: int| 0 <= j < 12 ==> #[trigger] m@[j]@ == hex_decoded(setup_text(j))->Some_0,
            forall|j: int| 0 <= j < n ==> #[trigger] m@[12 + j]@ == bitstream_message(bitstream@, j),
            forall|j: int|
                0 <= j < i ==> #[trigger] m@[12 + n + j]@ == hex_decoded(finish_text(j))->Some_0,
        decreases 9 - i,
    {
        match decode_hex(finish_command_text(i)) {
            Ok(v) => {
                let ghost before = m@;
                m.push(v);
                assert forall|j: int| 0 <= j < 12 + n + i implies #[trigger] m@[j] == before[j] by {}
                assert(forall|j: int| 0 <= j < n ==> #[trigger] m@[12 + j] == before[12 + j]);
                assert(forall|j: int| 0 <= j < i ==> #[trigger] m@[12 + n + j] == before[12 + n + j]);
            },
            Err(_) => {
                assert(hex_decoded(finish_text(i as int)) is Some);
                unreached()
            },
        }
        i = i + 1;
    }
    m
}

/// The EEPROM read requests, in order: `38 <offset> 10 30` for the offsets
/// 0x00 to 0x70 in steps of 0x10, each answered by a 16-byte read.
pub fn read_eeprom() -> (r: Vec<Vec<u8>>)
    ensures
        r@.len() == 8,
        forall|i: int|
            0 <= i < 8 ==> #[trigger] r@[i]@ == seq![0x38u8, (16 * i) as u8, 0x10u8, 0x30u8],
{
    let mut r: Vec<Vec<u8>> = Vec::new();
    let mut i: usize = 0;
    while i < 8
        invariant
            i <= 8,
            r@.len() == i,
            forall|j: int|
                0 <= j < i ==> #[trigger] r@[j]@ == seq![0x38u8, (16 * j) as u8, 0x10u8, 0x30u8],
        decreases 8 - i,
    {
        let offset = (16 * i) as u8;
        let cmd = vec![0x38u8, offset, 0x10u8, 0x30u8];
        assert(cmd@ =~= seq![0x38u8, (16 * i) as u8, 0x10u8, 0x30u8]);
        r.push(cmd);
        i = i + 1;
    }
    r
}

/// The bulk message that configures the capture port: `65`.
pub fn configure_port() -> (r: Vec<u8>)
    ensures
        r@ == seq![0x65u8],
{
    let r = vec![0x65u8];
    assert(r@ =~= seq![0x65u8]);
    r
}

/// The bulk messages that start the capture FIFO, in order: `5B 59 03`, `40`.
pub fn fifo_start() -> (r: Vec<Vec<u8>>)
    ensures
        r@.len() == 2,
        r@[0]@ == seq![0x5bu8, 0x59u8, 0x03u8],
        r@[1]@ == seq![0x40u8],
{
    let a = vec![0x5bu8, 0x59u8, 0x03u8];
    let b = vec![0x40u8];
    assert(a@ =~= seq![0x5bu8, 0x59u8, 0x03u8]);
    assert(b@ =~= seq![0x40u8]);
    let mut r: Vec<Vec<u8>> = Vec::new();
    r.push(a);
    r.push(b);
    r
}

/// The bulk message that stops the capture FIFO: `41`.
pub fn fifo_stop() -> (r: Vec<u8>)
    ensures
        r@ == seq![0x41u8],
{
    let r = vec![0x41u8];
    assert(r@ =~= seq![0x41u8]);
    r
}

/// The probe answer of an FPGA that holds no configuration.
pub open spec fn empty_probe_response() -> Seq<u8> {
    seq![0x09u8, 0x02u8, 0x27u8, 0x00u8, 0x01u8, 0x01u8, 0x00u8]
}

/// Reads the 7-byte probe answer: the FPGA is programmed unless it gave the
/// canned empty answer `09 02 27 00 01 01 00`.
pub fn check_fpga_programmed(response: &[u8]) -> (r: bool)
    ensures
        r <==> response@ != empty_probe_response(),
{
    let empty: [u8; 7] = [0x09u8, 0x02u8, 0x27u8, 0x00u8, 0x01u8, 0x01u8, 0x00u8];
    let e = empty.as_slice();
    assert(e@ =~= empty_probe_response());
    if response.len() != 7 {
        return true;
    }
    let mut i: usize = 0;
    while i < 7
        invariant
            i <= 7,
            response@.len() == 7,
            e@ == empty_probe_response(),
            forall|j: int| 0 <= j < i ==> response@[j] == e@[j],
        decreases 7 - i,
    {
        if response[i] != e[i] {
            return true;
        }
        i = i + 1;
    }
    assert(response@ =~= empty_probe_response());
    false
}

/// What to do when one bring-up transfer fails.
#[derive(Clone, Copy, Debug, PartialEq, Eq, Structural)]
pub enum ErrorPolicy {
    /// Report the failure and go on with the next command.
    BestEffort,
    /// Stop the sequence at the first failure.
    FailFast,
}

/// Whether the sequence goes on after a transfer that succeeded (`ok`) or
/// failed; a best-effort sequence always goes on.
pub fn continue_after(policy: ErrorPolicy, ok: bool) -> (r: bool)
    ensures
        r <==> (ok || policy == ErrorPolicy::BestEffort),
{
    match policy {
        ErrorPolicy::BestEffort => true,
        ErrorPolicy::FailFast => ok,
    }
}

} // verus!
