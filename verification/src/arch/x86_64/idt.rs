//! Interrupt descriptor table, the legacy interrupt controller, and what
//! each trap leads to.
//!
//! | vector | source             | stack | policy                           |
//! |--------|--------------------|-------|----------------------------------|
//! | 0x00   | division error     | 0     | fatal                            |
//! | 0x06   | invalid opcode     | 0     | fatal                            |
//! | 0x08   | double fault       | 1     | fatal, on a stack of its own     |
//! | 0x0D   | general protection | 0     | fatal                            |
//! | 0x0E   | page fault         | 0     | served by the address space, else fatal |
//! | 0x20   | timer              | 0     | acknowledged, then the scheduler ticks |
//! | 0x27   | spurious           | 0     | ignored                          |

use vstd::prelude::*;
use crate::arch::x86_64::gdt::KERNEL_CODE;
use crate::mm::memory::PhysMemory;
use crate::mm::pmm::BuddyAllocator;
use crate::mm::vmm::{AddressSpace, VirtAddr};

verus! {

/// Number of entries in the table.
pub const IDT_SIZE: usize = 256;

/// Type byte of a present interrupt gate of ring 0: interrupts are off on
/// entry.
pub const INTERRUPT_GATE: u8 = 0x8E;

/// Vector of the division error.
pub const VECTOR_DIVIDE_ERROR: u8 = 0x00;

/// Vector of the invalid opcode.
pub const VECTOR_INVALID_OPCODE: u8 = 0x06;

/// Vector of the double fault.
pub const VECTOR_DOUBLE_FAULT: u8 = 0x08;

/// Vector of the general protection fault.
pub const VECTOR_GENERAL_PROTECTION: u8 = 0x0D;

/// Vector of the page fault.
pub const VECTOR_PAGE_FAULT: u8 = 0x0E;

/// Vector of the timer, hardware interrupt 0 after the controllers are set up.
pub const VECTOR_TIMER: u8 = 0x20;

/// Vector of the spurious interrupt, hardware interrupt 7.
pub const VECTOR_SPURIOUS: u8 = 0x27;

/// Command port of the primary interrupt controller.
pub const PIC1_CMD: u16 = 0x20;

/// Data port of the primary interrupt controller.
pub const PIC1_DATA: u16 = 0x21;

/// Command port of the secondary interrupt controller.
pub const PIC2_CMD: u16 = 0xA0;

/// Data port of the secondary interrupt controller.
pub const PIC2_DATA: u16 = 0xA1;

/// The command that ends an interrupt.
pub const PIC_EOI: u8 = 0x20;

/// One entry of the table, sixteen bytes.
#[derive(Clone, Copy, Debug, PartialEq, Eq, Structural)]
pub struct IdtEntry {
    /// Bits 0 to 15 of the handler's address.
    pub offset_low: u16,
    /// Code segment of the handler.
    pub selector: u16,
    /// Interrupt stack to switch to, 0 for none.
    pub ist: u8,
    /// Type and attributes.
    pub type_attr: u8,
    /// Bits 16 to 31 of the handler's address.
    pub offset_mid: u16,
    /// Bits 32 to 63 of the handler's address.
    pub offset_high: u32,
    pub reserved: u32,
}

impl IdtEntry {
    /// The handler's address, put together from its three parts.
    pub open spec fn handler(&self) -> int {
        self.offset_low + self.offset_mid * 0x1_0000 + self.offset_high * 0x1_0000_0000
    }

    /// The lower eight bytes as one little-endian word.
    pub open spec fn spec_encode_low(&self) -> u64 {
        (self.offset_low + self.selector * 0x1_0000 + self.ist * 0x1_0000_0000 + self.type_attr
            * 0x100_0000_0000 + self.offset_mid * 0x1_0000_0000_0000) as u64
    }

    /// The upper eight bytes as one little-endian word.
    pub open spec fn spec_encode_high(&self) -> u64 {
        (self.offset_high + self.reserved * 0x1_0000_0000) as u64
    }

    /// The entry of a vector that is not in use: all zero, so not present.
    pub fn missing() -> (r: Self)
        ensures
            r == (IdtEntry {
                offset_low: 0,
                selector: 0,
                ist: 0,
                type_attr: 0,
                offset_mid: 0,
                offset_high: 0,
                reserved: 0,
            }),
    {
        Self {
            offset_low: 0,
            selector: 0,
            ist: 0,
            type_attr: 0,
            offset_mid: 0,
            offset_high: 0,
            reserved: 0,
        }
    }

    /// The entry that leads to the handler at `handler`.
    pub fn new(handler: u64, selector: u16, ist: u8, type_attr: u8) -> (r: Self)
        ensures
            r.handler() == handler,
            r.offset_low == handler % 0x1_0000,
            r.offset_mid == (handler / 0x1_0000) % 0x1_0000,
            r.offset_high == handler / 0x1_0000_0000,
            r.selector == selector,
            r.ist == ist,
            r.type_attr == type_attr,
            r.reserved == 0,
    {
        let low: u64 = handler & 0xFFFF;
        let mid: u64 = (handler >> 16) & 0xFFFF;
        let high: u64 = handler >> 32;
        assert(low == handler % 0x1_0000 && mid == (handler / 0x1_0000) % 0x1_0000 && high
            == handler / 0x1_0000_0000 && high <= 0xFFFF_FFFF) by (bit_vector)
            requires
                low == handler & 0xFFFF,
                mid == (handler >> 16) & 0xFFFF,
                high == handler >> 32,
        ;
        Self {
            offset_low: low as u16,
            selector,
            ist,
            type_attr,
            offset_mid: mid as u16,
            offset_high: high as u32,
            reserved: 0,
        }
    }

    /// The sixteen bytes of the entry as two little-endian words, the lower
    /// first.
    pub fn encode(&self) -> (r: (u64, u64))
        ensures
            r.0 == self.spec_encode_low(),
            r.1 == self.spec_encode_high(),
    {
        let a: u64 = self.offset_low as u64;
        let b: u64 = self.selector as u64;
        let c: u64 = self.ist as u64;
        let d: u64 = self.type_attr as u64;
        let e: u64 = self.offset_mid as u64;
        let g: u64 = self.offset_high as u64;
        let h: u64 = self.reserved as u64;
        assert((a | (b << 16) | (c << 32) | (d << 40) | (e << 48)) == a + b * 0x1_0000 + c
            * 0x1_0000_0000 + d * 0x100_0000_0000 + e * 0x1_0000_0000_0000 && (g | (h << 32)) == g
            + h * 0x1_0000_0000) by (bit_vector)
            requires
                a <= 0xFFFF,
                b <= 0xFFFF,
                c <= 0xFF,
                d <= 0xFF,
                e <= 0xFFFF,
                g <= 0xFFFF_FFFF,
                h <= 0xFFFF_FFFF,
        ;
        (a | (b << 16) | (c << 32) | (d << 40) | (e << 48), g | (h << 32))
    }
}

/// What the processor puts on the stack when it takes an interrupt.
#[derive(Clone, Copy, Debug, PartialEq, Eq, Structural)]
pub struct InterruptFrame {
    pub rip: u64,
    pub cs: u64,
    pub rflags: u64,
    pub rsp: u64,
    pub ss: u64,
}

/// What the register of the interrupt table is loaded with: the table's
/// last byte and its address.
#[derive(Clone, Copy, Debug, PartialEq, Eq, Structural)]
pub struct IdtDescriptor {
    pub size: u16,
    pub offset: u64,
}

/// Addresses of the entry stubs, one for each vector in use.
#[derive(Clone, Copy, Debug, PartialEq, Eq, Structural)]
pub struct Handlers {
    pub divide_error: u64,
    pub invalid_opcode: u64,
    pub double_fault: u64,
    pub general_protection: u64,
    pub page_fault: u64,
    pub timer: u64,
    pub spurious: u64,
}

/// Whether the processor itself pushes an error code for `vector`; for the
/// others the entry stub pushes a zero, so that every handler finds the
/// same layout.
pub fn pushes_error_code(vector: u8) -> (r: bool)
    ensures
        r == (vector == VECTOR_DOUBLE_FAULT || vector == VECTOR_GENERAL_PROTECTION || vector
            == VECTOR_PAGE_FAULT),
{
    vector == VECTOR_DOUBLE_FAULT || vector == VECTOR_GENERAL_PROTECTION || vector
        == VECTOR_PAGE_FAULT
}

/// The interrupt stack that `vector` runs on: slot 1 for the double fault,
/// none for the others.
pub fn stack_for(vector: u8) -> (r: u8)
    ensures
        r == (if vector == VECTOR_DOUBLE_FAULT {
            1u8
        } else {
            0u8
        }),
{
    if vector == VECTOR_DOUBLE_FAULT {
        1
    } else {
        0
    }
}

/// The handler of `vector`, if the vector is in use.
pub open spec fn handler_of(handlers: Handlers, vector: int) -> Option<u64> {
    if vector == VECTOR_DIVIDE_ERROR {
        Some(handlers.divide_error)
    } else if vector == VECTOR_INVALID_OPCODE {
        Some(handlers.invalid_opcode)
    } else if vector == VECTOR_DOUBLE_FAULT {
        Some(handlers.double_fault)
    } else if vector == VECTOR_GENERAL_PROTECTION {
        Some(handlers.general_protection)
    } else if vector == VECTOR_PAGE_FAULT {
        Some(handlers.page_fault)
    } else if vector == VECTOR_TIMER {
        Some(handlers.timer)
    } else if vector == VECTOR_SPURIOUS {
        Some(handlers.spurious)
    } else {
        None
    }
}

/// Whether `entry` is what belongs at `vector`: an interrupt gate
/// into the kernel's code segment for a vector in use, on the stack that
/// belongs to the vector; all zero for any other.
pub open spec fn is_entry_of(entry: IdtEntry, handlers: Handlers, vector: int) -> bool {
    match handler_of(handlers, vector) {
        Some(h) => entry.handler() == h && entry.selector == KERNEL_CODE && entry.type_attr
            == INTERRUPT_GATE && entry.reserved == 0 && entry.ist == (if vector
            == VECTOR_DOUBLE_FAULT {
            1u8
        } else {
            0u8
        }),
        None => entry == (IdtEntry {
            offset_low: 0,
            selector: 0,
            ist: 0,
            type_attr: 0,
            offset_mid: 0,
            offset_high: 0,
            reserved: 0,
        }),
    }
}

/// The entry for `vector` with its handler at `handler`.
fn entry_for(vector: u8, handler: u64) -> (r: IdtEntry)
    ensures
        r.handler() == handler,
        r.selector == KERNEL_CODE,
        r.type_attr == INTERRUPT_GATE,
        r.reserved == 0,
        r.ist == (if vector == VECTOR_DOUBLE_FAULT {
            1u8
        } else {
            0u8
        }),
{
    IdtEntry::new(handler, KERNEL_CODE, stack_for(vector), INTERRUPT_GATE)
}

/// Makes the interrupt table: an entry for each vector in use, nothing for
/// the rest. `idt_addr` says where the table will lie. What is left to the
/// caller is to store the table, to send the interrupt controller what
/// `pic_init` returns, to load the table register with the descriptor
/// returned, and to switch interrupts on.
pub fn init(handlers: &Handlers, idt_addr: u64) -> (r: (Vec<IdtEntry>, IdtDescriptor))
    ensures
        r.0@.len() == IDT_SIZE,
        forall|v: int| 0 <= v < IDT_SIZE ==> is_entry_of(#[trigger] r.0@[v], *handlers, v),
        r.1 == (IdtDescriptor { size: 4095, offset: idt_addr }),
{
    let mut table: Vec<IdtEntry> = Vec::new();
    let mut v: usize = 0;
    while v < IDT_SIZE
        invariant
            v <= IDT_SIZE,
            table@.len() == v,
            forall|k: int| 0 <= k < v ==> is_entry_of(#[trigger] table@[k], *handlers, k),
        decreases IDT_SIZE - v,
    {
        let vector: u8 = v as u8;
        let entry = if vector == VECTOR_DIVIDE_ERROR {
            entry_for(vector, handlers.divide_error)
        } else if vector == VECTOR_INVALID_OPCODE {
            entry_for(vector, handlers.invalid_opcode)
        } else if vector == VECTOR_DOUBLE_FAULT {
            entry_for(vector, handlers.double_fault)
        } else if vector == VECTOR_GENERAL_PROTECTION {
            entry_for(vector, handlers.general_protection)
        } else if vector == VECTOR_PAGE_FAULT {
            entry_for(vector, handlers.page_fault)
        } else if vector == VECTOR_TIMER {
            entry_for(vector, handlers.timer)
        } else if vector == VECTOR_SPURIOUS {
            entry_for(vector, handlers.spurious)
        } else {
            IdtEntry::missing()
        };
        table.push(entry);
        v += 1;
    }
    (table, IdtDescriptor { size: 4095, offset: idt_addr })
}

/// The writes that set up the two interrupt controllers: the start of the
/// set-up, the first vector of each, how the two are wired, the mode, and
/// the masks.
pub open spec fn pic_init_writes() -> Seq<(u16, u8)> {
    seq![
        (PIC1_CMD, 0x11u8),
        (PIC2_CMD, 0x11u8),
        (PIC1_DATA, 0x20u8),
        (PIC2_DATA, 0x28u8),
        (PIC1_DATA, 0x04u8),
        (PIC2_DATA, 0x02u8),
        (PIC1_DATA, 0x01u8),
        (PIC2_DATA, 0x01u8),
        (PIC1_DATA, 0xFEu8),
        (PIC2_DATA, 0xFFu8),
    ]
}

/// The writes, a port and a byte each, that set up the two interrupt
/// controllers: hardware interrupts 0 to 15 are moved to the vectors 0x20
/// to 0x2F, away from the processor's exceptions, and all are masked but
/// the timer.
pub fn pic_init() -> (r: Vec<(u16, u8)>)
    ensures
        r@ == pic_init_writes(),
{
    let mut writes: Vec<(u16, u8)> = Vec::new();
    // start of the set-up
    writes.push((PIC1_CMD, 0x11));
    writes.push((PIC2_CMD, 0x11));
    // first vector of each controller
    writes.push((PIC1_DATA, 0x20));
    writes.push((PIC2_DATA, 0x28));
    // how the two are wired to each other
    writes.push((PIC1_DATA, 0x04));
    writes.push((PIC2_DATA, 0x02));
    // 8086 mode
    writes.push((PIC1_DATA, 0x01));
    writes.push((PIC2_DATA, 0x01));
    // masks: the timer alone is let through
    writes.push((PIC1_DATA, 0xFE));
    writes.push((PIC2_DATA, 0xFF));
    assert(writes@ =~= pic_init_writes());
    writes
}

/// The writes that end hardware interrupt `irq`: to the secondary
/// controller first if the interrupt came through it, and to the primary.
pub fn pic_eoi(irq: u8) -> (r: Vec<(u16, u8)>)
    ensures
        r@ == (if irq >= 8 {
            seq![(PIC2_CMD, PIC_EOI), (PIC1_CMD, PIC_EOI)]
        } else {
            seq![(PIC1_CMD, PIC_EOI)]
        }),
{
    let mut writes: Vec<(u16, u8)> = Vec::new();
    if irq >= 8 {
        writes.push((PIC2_CMD, PIC_EOI));
    }
    writes.push((PIC1_CMD, PIC_EOI));
    assert(writes@ =~= (if irq >= 8 {
        seq![(PIC2_CMD, PIC_EOI), (PIC1_CMD, PIC_EOI)]
    } else {
        seq![(PIC1_CMD, PIC_EOI)]
    }));
    writes
}

/// The traps that the kernel does not survive.
#[derive(Clone, Copy, Debug, PartialEq, Eq, Structural)]
pub enum Fault {
    DivisionError,
    InvalidOpcode,
    DoubleFault,
    GeneralProtection,
    PageFault,
}

/// Why the kernel stops: the fault, where it happened, the error code
/// that came with it and, for a page fault, the address that was touched.
#[derive(Clone, Copy, Debug, PartialEq, Eq, Structural)]
pub struct FatalTrap {
    pub fault: Fault,
    pub rip: u64,
    pub error: u64,
    pub addr: u64,
}

/// A division error is fatal.
pub fn handle_divide_error(frame: &InterruptFrame, error: u64) -> (r: FatalTrap)
    ensures
        r == (FatalTrap { fault: Fault::DivisionError, rip: frame.rip, error: 0, addr: 0 }),
{
    FatalTrap { fault: Fault::DivisionError, rip: frame.rip, error: 0, addr: 0 }
}

/// An invalid opcode is fatal.
pub fn handle_invalid_opcode(frame: &InterruptFrame, error: u64) -> (r: FatalTrap)
    ensures
        r == (FatalTrap { fault: Fault::InvalidOpcode, rip: frame.rip, error: 0, addr: 0 }),
{
    FatalTrap { fault: Fault::InvalidOpcode, rip: frame.rip, error: 0, addr: 0 }
}

/// A double fault is fatal.
pub fn handle_double_fault(frame: &InterruptFrame, error: u64) -> (r: FatalTrap)
    ensures
        r == (FatalTrap { fault: Fault::DoubleFault, rip: frame.rip, error, addr: 0 }),
{
    FatalTrap { fault: Fault::DoubleFault, rip: frame.rip, error, addr: 0 }
}

/// A general protection fault is fatal.
pub fn handle_general_protection(frame: &InterruptFrame, error: u64) -> (r: FatalTrap)
    ensures
        r == (FatalTrap { fault: Fault::GeneralProtection, rip: frame.rip, error, addr: 0 }),
{
    FatalTrap { fault: Fault::GeneralProtection, rip: frame.rip, error, addr: 0 }
}

/// A page fault at `fault_addr`, the address that the processor reports,
/// goes to the current address space. `None` if it was served there: the
/// instruction can run again. Otherwise the fault is fatal.
pub fn handle_page_fault(
    frame: &InterruptFrame,
    error: u64,
    fault_addr: u64,
    space: &mut AddressSpace,
    mem: &mut PhysMemory,
    pmm: &mut BuddyAllocator,
) -> (r: Option<FatalTrap>)
    requires
        old(space).wf(old(mem), old(pmm)),
    ensures
        final(space).wf(final(mem), final(pmm)),
        *final(space) == *old(space),
        r matches Some(t) ==> t == (FatalTrap {
            fault: Fault::PageFault,
            rip: frame.rip,
            error,
            addr: fault_addr,
        }),
        crate::mm::vmm::page_fault_outcome(
            old(space),
            old(mem),
            old(pmm)@,
            fault_addr,
            error,
            r.is_none(),
            final(mem),
            final(pmm)@,
        ),
{
    let handled = crate::mm::vmm::handle_page_fault(
        space,
        mem,
        pmm,
        VirtAddr::new(fault_addr),
        error,
    );
    if handled {
        None
    } else {
        Some(FatalTrap { fault: Fault::PageFault, rip: frame.rip, error, addr: fault_addr })
    }
}

/// The timer's interrupt is acknowledged; the writes that do so are
/// returned. After them the scheduler ticks.
pub fn handle_timer(frame: &InterruptFrame, error: u64) -> (r: Vec<(u16, u8)>)
    ensures
        r@ == seq![(PIC1_CMD, PIC_EOI)],
{
    pic_eoi(0)
}

/// A spurious interrupt is ignored.
pub fn handle_spurious(frame: &InterruptFrame, error: u64) {
}

} // verus!
