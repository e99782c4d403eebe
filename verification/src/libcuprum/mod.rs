//! The library of user programs: a thin layer over the system calls.

use vstd::prelude::*;

pub mod ipc;

verus! {

/// Why a system call failed.
#[derive(Debug, Clone, Copy, PartialEq, Eq, Structural)]
pub enum Error {
    InvalidCap,
    NoPermission,
    InvalidArg,
    NoMemory,
    NotFound,
    /// A failure that has no name, with the number that the kernel gave.
    Unknown(isize),
}

} // verus!
