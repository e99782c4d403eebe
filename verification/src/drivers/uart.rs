//! Serial line on COM1, for debug output.
//!
//! The functions here say what is written to which port; the kernel binary
//! does the port I/O.

use vstd::prelude::*;
use vstd::string::StringSliceAdditionalSpecFns;

verus! {

/// First port of COM1.
pub const COM1: u16 = 0x3F8;

/// Bit of the line status register that says that the transmitter can take
/// a byte.
pub const TRANSMIT_EMPTY: u8 = 0x20;

/// The writes, a port and a byte each, that set the line to 115200 baud,
/// eight bits, no parity, one stop bit, with its buffers on and its
/// interrupts off.
pub fn init() -> (r: Vec<(u16, u8)>)
    ensures
        r@ == seq![
            (0x3F9u16, 0x00u8),
            (0x3FBu16, 0x80u8),
            (0x3F8u16, 0x01u8),
            (0x3F9u16, 0x00u8),
            (0x3FBu16, 0x03u8),
            (0x3FAu16, 0xC7u8),
            (0x3FCu16, 0x0Bu8),
        ],
{
    let mut writes: Vec<(u16, u8)> = Vec::new();
    // interrupts off
    writes.push((COM1 + 1, 0x00));
    // open the divisor latch
    writes.push((COM1 + 3, 0x80));
    // divisor 1: 115200 baud
    writes.push((COM1, 0x01));
    writes.push((COM1 + 1, 0x00));
    // eight bits, no parity, one stop bit
    writes.push((COM1 + 3, 0x03));
    // buffers on and cleared, threshold of fourteen bytes
    writes.push((COM1 + 2, 0xC7));
    // request to send, data terminal ready
    writes.push((COM1 + 4, 0x0B));
    assert(writes@ =~= seq![
        (0x3F9u16, 0x00u8),
        (0x3FBu16, 0x80u8),
        (0x3F8u16, 0x01u8),
        (0x3F9u16, 0x00u8),
        (0x3FBu16, 0x03u8),
        (0x3FAu16, 0xC7u8),
        (0x3FCu16, 0x0Bu8),
    ]);
    writes
}

/// Whether the transmitter can take a byte, given what the line status
/// register at `COM1 + 5` holds.
pub fn transmit_ready(line_status: u8) -> (r: bool)
    ensures
        r == (line_status & TRANSMIT_EMPTY != 0),
{
    line_status & TRANSMIT_EMPTY != 0
}

/// `bytes` with a carriage return before every line feed.
pub open spec fn with_carriage_returns(bytes: Seq<u8>) -> Seq<u8>
    decreases bytes.len(),
{
    if bytes.len() == 0 {
        Seq::empty()
    } else if bytes.last() == 10 {
        with_carriage_returns(bytes.drop_last()) + seq![13u8, 10u8]
    } else {
        with_carriage_returns(bytes.drop_last()) + seq![bytes.last()]
    }
}

/// The bytes that printing `s` sends to `COM1`, in order: those of `s`,
/// with a carriage return before every line feed.
pub fn print(s: &str) -> (r: Vec<u8>)
    ensures
        r@ == with_carriage_returns(s.spec_bytes()),
{
    let bytes = s.as_bytes();
    let mut out: Vec<u8> = Vec::new();
    let mut i: usize = 0;
    assert(bytes@.take(0).len() == 0);
    while i < bytes.len()
        invariant
            i <= bytes@.len(),
            bytes@ == s.spec_bytes(),
            out@ == with_carriage_returns(bytes@.take(i as int)),
        decreases bytes@.len() - i,
    {
        let byte: u8 = bytes[i];
        proof {
            let next = bytes@.take(i + 1);
            assert(next.drop_last() =~= bytes@.take(i as int));
            assert(next.last() == byte);
        }
        if byte == 10 {
            out.push(13);
        }
        out.push(byte);
        i += 1;
        proof {
            let before = with_carriage_returns(bytes@.take(i - 1));
            if byte == 10 {
                assert(out@ =~= before + seq![13u8, 10u8]);
            } else {
                assert(out@ =~= before + seq![byte]);
            }
        }
    }
    assert(bytes@.take(bytes@.len() as int) =~= bytes@);
    out
}

} // verus!
