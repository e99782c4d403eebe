//! x86_64: segment and interrupt descriptor tables, the legacy interrupt
//! controller, and the policy for each trap.

use vstd::prelude::*;

pub mod gdt;
pub mod idt;

verus! {

/// Where the structures that the processor reads lie, and where the stacks
/// end that it switches to.
#[derive(Clone, Copy, Debug, PartialEq, Eq, Structural)]
pub struct BootLayout {
    /// Top of the kernel's interrupt stack.
    pub stack_top: u64,
    /// Top of the stack of the double fault.
    pub fault_stack_top: u64,
    /// Address of the task state segment.
    pub tss_addr: u64,
    /// Address of the segment descriptor table.
    pub gdt_addr: u64,
    /// Address of the interrupt descriptor table.
    pub idt_addr: u64,
}

/// What is loaded into the processor and sent to the interrupt controller
/// when the kernel starts.
pub struct BootTables {
    pub gdt: gdt::Gdt,
    pub gdt_descriptor: gdt::GdtDescriptor,
    pub idt: Vec<idt::IdtEntry>,
    pub idt_descriptor: idt::IdtDescriptor,
    /// The writes, a port and a byte each, for the interrupt controller.
    pub pic: Vec<(u16, u8)>,
}

/// Prepares the platform: the task state segment gets its stacks, and the
/// segment table, the interrupt table and the set-up of the interrupt
/// controller are made, in the order in which they are to be loaded.
pub fn init(tss: &mut gdt::Tss, layout: &BootLayout, handlers: &idt::Handlers) -> (r: BootTables)
    ensures
        final(tss).rsp0 == layout.stack_top,
        final(tss).ist@ == old(tss).ist@.update(0, layout.fault_stack_top),
        final(tss).rsp1 == old(tss).rsp1,
        final(tss).rsp2 == old(tss).rsp2,
        final(tss).iomap_base == old(tss).iomap_base,
        final(tss).reserved0 == old(tss).reserved0,
        final(tss).reserved1 == old(tss).reserved1,
        final(tss).reserved2 == old(tss).reserved2,
        final(tss).reserved3 == old(tss).reserved3,
        r.gdt == gdt::Gdt::spec_new(layout.tss_addr),
        r.gdt_descriptor == (gdt::GdtDescriptor { size: 55, offset: layout.gdt_addr }),
        r.idt@.len() == idt::IDT_SIZE,
        forall|v: int|
            0 <= v < idt::IDT_SIZE ==> idt::is_entry_of(#[trigger] r.idt@[v], *handlers, v),
        r.idt_descriptor == (idt::IdtDescriptor { size: 4095, offset: layout.idt_addr }),
        r.pic@ == idt::pic_init_writes(),
{
    let (gdt, gdt_descriptor) = gdt::init(
        tss,
        layout.stack_top,
        layout.fault_stack_top,
        layout.tss_addr,
        layout.gdt_addr,
    );
    let (idt, idt_descriptor) = idt::init(handlers, layout.idt_addr);
    let pic = idt::pic_init();
    BootTables { gdt, gdt_descriptor, idt, idt_descriptor, pic }
}

} // verus!
