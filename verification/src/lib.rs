//! Memory and trap core of the CupruxOS microkernel.
//!
//! The crate holds the kernel's decision logic as ordinary, fully verified
//! functions over explicit state: the buddy frame allocator, the four-level
//! page-table walker and the per-task address spaces, the slab heap, and the
//! values that go into the CPU descriptor tables. Hardware access (port I/O,
//! control registers, the global lock-protected singletons) lives with the
//! kernel binary, which hands this crate plain values and takes plain values
//! back.

pub mod arch;
pub mod drivers;
pub mod ipc;
pub mod libcuprum;
pub mod mm;
pub mod syscall;
