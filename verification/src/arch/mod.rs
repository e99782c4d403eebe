//! Hardware abstraction: what the kernel needs from the processor it runs
//! on, computed here and loaded by the kernel binary.

use vstd::prelude::*;

pub mod x86_64;

pub use x86_64 as current;

verus! {

/// Prepares the platform; the first thing the kernel does after the serial
/// line is up.
pub fn init(
    tss: &mut current::gdt::Tss,
    layout: &current::BootLayout,
    handlers: &current::idt::Handlers,
) -> (r: current::BootTables)
    ensures
        final(tss).rsp0 == layout.stack_top,
        final(tss).ist@ == old(tss).ist@.update(0, layout.fault_stack_top),
        final(tss).rsp1 == old(tss).rsp1,
        final(tss).rsp2 == old(tss).rsp2,
        final(tss).iomap_base == old(tss).iomap_base,
        final(tss).reserved0 == old(tss).reserved0,
        final(tss).reserved1 == old(tss).reserved1,
        final(tss).reserved2 == old(tss).reserved2,
        final(tss).reserved3 == old(tss).reserved3,
        r.gdt == current::gdt::Gdt::spec_new(layout.tss_addr),
        r.gdt_descriptor == (current::gdt::GdtDescriptor { size: 55, offset: layout.gdt_addr }),
        r.idt@.len() == current::idt::IDT_SIZE,
        forall|v: int|
            0 <= v < current::idt::IDT_SIZE ==> current::idt::is_entry_of(
                #[trigger] r.idt@[v],
                *handlers,
                v,
            ),
        r.idt_descriptor == (current::idt::IdtDescriptor { size: 4095, offset: layout.idt_addr }),
        r.pic@ == current::idt::pic_init_writes(),
{
    current::init(tss, layout, handlers)
}

} // verus!
