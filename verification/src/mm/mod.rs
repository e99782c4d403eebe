//! Memory management.
//!
//! Three layers, leaves first:
//!   `pmm`  - physical frame allocator (buddy system)
//!   `vmm`  - virtual memory manager (page tables and regions)
//!   `heap` - kernel heap (slab caches over frames)

pub mod bitmap;
pub mod buddy;
pub mod heap;
pub mod memory;
pub mod page_table;
pub mod pmm;
pub mod vmm;

pub use pmm::PhysAddr;
pub use vmm::VirtAddr;
