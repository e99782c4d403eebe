//! Drivers that live in the kernel: the serial line for debug output.

use vstd::prelude::*;
use vstd::string::StringSliceAdditionalSpecFns;

pub mod uart;

verus! {

/// The bytes that printing `s` on the serial line sends.
pub fn print(s: &str) -> (r: Vec<u8>)
    ensures
        r@ == uart::with_carriage_returns(s.spec_bytes()),
{
    uart::print(s)
}

} // verus!
