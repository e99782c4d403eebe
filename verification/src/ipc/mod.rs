//! Names of the objects of message passing: ports, capabilities, tasks.

use vstd::prelude::*;

verus! {

/// Names a port, a queue of messages.
#[derive(Debug, Clone, Copy, PartialEq, Eq, Structural)]
pub struct PortId(pub u64);

/// Names a capability, a token of access that cannot be forged.
#[derive(Debug, Clone, Copy, PartialEq, Eq, Structural)]
pub struct CapId(pub u64);

/// Names a task.
#[derive(Debug, Clone, Copy, PartialEq, Eq, Structural)]
pub struct TaskId(pub u64);

} // verus!
