//! Message passing as user programs see it.

use vstd::prelude::*;
use crate::libcuprum::Error;

verus! {

/// Size of a message's payload in bytes.
pub const PAYLOAD_SIZE: usize = 512;

/// A capability for a port.
#[derive(Clone, Copy)]
pub struct PortCap(pub u64);

/// A message: the payload and how much of it is in use.
pub struct Message {
    pub payload: [u8; 512],
    pub payload_len: usize,
}

/// Sends `msg` to `port` and waits for the answer. The kernel serves no
/// message passing yet: the call fails with the kernel's number.
pub fn call(port: PortCap, msg: &Message) -> (r: Result<Message, Error>)
    ensures
        r == Err::<Message, Error>(Error::Unknown(-1isize)),
{
    Err(Error::Unknown(-1))
}

/// Sends `msg` to `port` without waiting. The kernel serves no message
/// passing yet: the call fails with the kernel's number.
pub fn send(port: PortCap, msg: &Message) -> (r: Result<(), Error>)
    ensures
        r == Err::<(), Error>(Error::Unknown(-1isize)),
{
    Err(Error::Unknown(-1))
}

/// Waits for a message on `port`. The kernel serves no message passing
/// yet: the call fails with the kernel's number.
pub fn recv(port: PortCap) -> (r: Result<Message, Error>)
    ensures
        r == Err::<Message, Error>(Error::Unknown(-1isize)),
{
    Err(Error::Unknown(-1))
}

} // verus!
