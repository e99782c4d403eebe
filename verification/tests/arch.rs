use cuprux::arch;
use cuprux::arch::x86_64::gdt::{
    self, set_kernel_stack, Gdt, GdtEntry, Tss, TssEntry, KERNEL_CODE, KERNEL_DATA, TSS_SEL,
    USER_CODE, USER_DATA,
};
use cuprux::arch::x86_64::idt::{
    self, handle_divide_error, handle_double_fault, handle_general_protection,
    handle_invalid_opcode, handle_spurious, handle_timer, pic_eoi, pic_init, pushes_error_code,
    stack_for, Fault, FatalTrap, Handlers, IdtEntry, InterruptFrame,
};
use cuprux::arch::x86_64::BootLayout;
use cuprux::mm::memory::PhysMemory;
use cuprux::mm::page_table::PageFlags;
use cuprux::mm::pmm::{self, PhysAddr};
use cuprux::mm::vmm::{AddressSpace, VirtAddr};

fn frame(rip: u64) -> InterruptFrame {
    InterruptFrame { rip, cs: 0x08, rflags: 0x202, rsp: 0xFFFF_8000_0010_0000, ss: 0x10 }
}

fn handlers() -> Handlers {
    Handlers {
        divide_error: 0xFFFF_FFFF_8000_1000,
        invalid_opcode: 0xFFFF_FFFF_8000_1010,
        double_fault: 0xFFFF_FFFF_8000_1020,
        general_protection: 0xFFFF_FFFF_8000_1030,
        page_fault: 0xFFFF_FFFF_8000_1040,
        timer: 0xFFFF_FFFF_8000_1050,
        spurious: 0xFFFF_FFFF_8000_1060,
    }
}

#[test]
fn selectors() {
    assert_eq!(KERNEL_CODE, 0x08);
    assert_eq!(KERNEL_DATA, 0x10);
    assert_eq!(USER_CODE, 0x1B);
    assert_eq!(USER_DATA, 0x23);
    assert_eq!(TSS_SEL, 0x28);
}

#[test]
fn segment_descriptors_encode() {
    assert_eq!(GdtEntry::null().encode(), 0);
    assert_eq!(GdtEntry::new(0x9A, 0xA0).encode(), 0x00A0_9A00_0000_FFFF);
    assert_eq!(GdtEntry::new(0x92, 0xC0).encode(), 0x00C0_9200_0000_FFFF);
    assert_eq!(GdtEntry::new(0xFA, 0xA0).encode(), 0x00A0_FA00_0000_FFFF);
    assert_eq!(GdtEntry::new(0xF2, 0xC0).encode(), 0x00C0_F200_0000_FFFF);
}

#[test]
fn tss_descriptor_splits_the_address() {
    let e = TssEntry::new(0xFFFF_8000_1234_5678);
    assert_eq!(e.limit_low, 103);
    assert_eq!(e.base_low, 0x5678);
    assert_eq!(e.base_mid, 0x34);
    assert_eq!(e.base_high, 0x12);
    assert_eq!(e.base_upper, 0xFFFF_8000);
    assert_eq!(e.access, 0x89);
    assert_eq!(e.granularity, 0);
    assert_eq!(e.reserved, 0);
    assert_eq!(e.encode(), (0x1200_8934_5678_0067, 0x0000_0000_FFFF_8000));
}

#[test]
fn tss_starts_empty() {
    let tss = Tss::new();
    assert_eq!(tss.rsp0, 0);
    assert_eq!(tss.ist, [0u64; 7]);
    assert_eq!(tss.iomap_base, 104);
}

#[test]
fn gdt_init_sets_stacks_and_table() {
    let mut tss = Tss::new();
    let (table, descriptor) = gdt::init(&mut tss, 0x9000, 0xA000, 0x5000, 0x6000);
    assert_eq!(tss.rsp0, 0x9000);
    assert_eq!(tss.ist[0], 0xA000);
    assert_eq!(tss.ist[1], 0);
    assert_eq!(descriptor.size, 55);
    assert_eq!(descriptor.offset, 0x6000);
    assert_eq!(table, Gdt::new(0x5000));
    assert_eq!(
        table.encode(),
        vec![
            0,
            0x00A0_9A00_0000_FFFF,
            0x00C0_9200_0000_FFFF,
            0x00A0_FA00_0000_FFFF,
            0x00C0_F200_0000_FFFF,
            0x0000_8900_5000_0067,
            0
        ]
    );
    set_kernel_stack(&mut tss, 0xB000);
    assert_eq!(tss.rsp0, 0xB000);
    assert_eq!(tss.ist[0], 0xA000);
}

#[test]
fn gate_splits_the_handler() {
    let g = IdtEntry::new(0xFFFF_8000_1234_5678, KERNEL_CODE, 1, 0x8E);
    assert_eq!(g.offset_low, 0x5678);
    assert_eq!(g.offset_mid, 0x1234);
    assert_eq!(g.offset_high, 0xFFFF_8000);
    assert_eq!(g.selector, 0x08);
    assert_eq!(g.ist, 1);
    assert_eq!(g.type_attr, 0x8E);
    assert_eq!(g.encode(), (0x1234_8E01_0008_5678, 0x0000_0000_FFFF_8000));
    assert_eq!(IdtEntry::missing().encode(), (0, 0));
}

#[test]
fn idt_has_the_seven_gates() {
    let h = handlers();
    let (table, descriptor) = idt::init(&h, 0x7000);
    assert_eq!(table.len(), 256);
    assert_eq!(descriptor.size, 4095);
    assert_eq!(descriptor.offset, 0x7000);
    let used = [
        (0x00usize, h.divide_error, 0u8),
        (0x06, h.invalid_opcode, 0),
        (0x08, h.double_fault, 1),
        (0x0D, h.general_protection, 0),
        (0x0E, h.page_fault, 0),
        (0x20, h.timer, 0),
        (0x27, h.spurious, 0),
    ];
    for (v, entry) in table.iter().enumerate() {
        match used.iter().find(|u| u.0 == v) {
            Some(&(_, handler, ist)) => {
                assert_eq!(*entry, IdtEntry::new(handler, KERNEL_CODE, ist, 0x8E));
            }
            None => assert_eq!(*entry, IdtEntry::missing()),
        }
    }
}

#[test]
fn error_codes_and_stacks() {
    for v in 0..=255u8 {
        assert_eq!(pushes_error_code(v), v == 0x08 || v == 0x0D || v == 0x0E);
        assert_eq!(stack_for(v), if v == 0x08 { 1 } else { 0 });
    }
}

#[test]
fn interrupt_controller_set_up() {
    assert_eq!(
        pic_init(),
        vec![
            (0x20, 0x11),
            (0xA0, 0x11),
            (0x21, 0x20),
            (0xA1, 0x28),
            (0x21, 0x04),
            (0xA1, 0x02),
            (0x21, 0x01),
            (0xA1, 0x01),
            (0x21, 0xFE),
            (0xA1, 0xFF)
        ]
    );
}

#[test]
fn end_of_interrupt() {
    assert_eq!(pic_eoi(0), vec![(0x20, 0x20)]);
    assert_eq!(pic_eoi(7), vec![(0x20, 0x20)]);
    assert_eq!(pic_eoi(8), vec![(0xA0, 0x20), (0x20, 0x20)]);
    assert_eq!(pic_eoi(15), vec![(0xA0, 0x20), (0x20, 0x20)]);
    assert_eq!(handle_timer(&frame(0x1000), 0), vec![(0x20, 0x20)]);
    handle_spurious(&frame(0x1000), 0);
}

#[test]
fn fatal_traps_report_where() {
    let f = frame(0xFFFF_FFFF_8000_4242);
    assert_eq!(
        handle_divide_error(&f, 7),
        FatalTrap { fault: Fault::DivisionError, rip: f.rip, error: 0, addr: 0 }
    );
    assert_eq!(
        handle_invalid_opcode(&f, 7),
        FatalTrap { fault: Fault::InvalidOpcode, rip: f.rip, error: 0, addr: 0 }
    );
    assert_eq!(
        handle_double_fault(&f, 7),
        FatalTrap { fault: Fault::DoubleFault, rip: f.rip, error: 7, addr: 0 }
    );
    assert_eq!(
        handle_general_protection(&f, 0x10),
        FatalTrap { fault: Fault::GeneralProtection, rip: f.rip, error: 0x10, addr: 0 }
    );
}

#[test]
fn page_fault_is_served_and_the_write_completes() {
    let mut mem = PhysMemory::new(0x100000, 4096).unwrap();
    let mut pmm = pmm::init(&[(0x100000, 16 * 1024 * 1024)]);
    let mut space = AddressSpace::new(&mut mem, &mut pmm, None).unwrap();
    let addr = 0x6000_0000u64;
    assert!(space.map_anonymous(VirtAddr::new(addr), 4096, PageFlags::user_rw()));
    // the write faults: vector 0x0E, with the address in the fault register
    assert!(pushes_error_code(idt::VECTOR_PAGE_FAULT));
    assert_eq!(space.translate(&mem, VirtAddr::new(addr)), None);
    let served =
        idt::handle_page_fault(&frame(0x40_1000), 0x2, addr, &mut space, &mut mem, &mut pmm);
    assert_eq!(served, None);
    // the instruction runs again: the write goes through, and reads back
    let phys: PhysAddr = space.translate(&mem, VirtAddr::new(addr)).unwrap();
    assert_eq!(mem.read(phys), 0);
    mem.write(phys, 0xDEAD_BEEF);
    assert_eq!(mem.read(space.translate(&mem, VirtAddr::new(addr)).unwrap()), 0xDEAD_BEEF);
    assert_eq!(mem.read_byte(phys), 0xEF);
    assert_eq!(mem.read_byte(PhysAddr::new(phys.as_u64() + 3)), 0xDE);
}

#[test]
fn page_fault_outside_regions_is_fatal() {
    let mut mem = PhysMemory::new(0x100000, 4096).unwrap();
    let mut pmm = pmm::init(&[(0x100000, 16 * 1024 * 1024)]);
    let mut space = AddressSpace::new(&mut mem, &mut pmm, None).unwrap();
    let f = frame(0x40_1000);
    assert_eq!(
        idt::handle_page_fault(&f, 0x2, 0xDEAD_0000, &mut space, &mut mem, &mut pmm),
        Some(FatalTrap { fault: Fault::PageFault, rip: 0x40_1000, error: 0x2, addr: 0xDEAD_0000 })
    );
}

#[test]
fn platform_is_prepared_in_one_go() {
    let mut tss = Tss::new();
    let layout = BootLayout {
        stack_top: 0x9000,
        fault_stack_top: 0xA000,
        tss_addr: 0x5000,
        gdt_addr: 0x6000,
        idt_addr: 0x7000,
    };
    let tables = arch::init(&mut tss, &layout, &handlers());
    assert_eq!(tss.rsp0, 0x9000);
    assert_eq!(tss.ist[0], 0xA000);
    assert_eq!(tables.gdt, Gdt::new(0x5000));
    assert_eq!(tables.gdt_descriptor.offset, 0x6000);
    assert_eq!(tables.idt.len(), 256);
    assert_eq!(tables.idt_descriptor.offset, 0x7000);
    assert_eq!(tables.pic, pic_init());
}

#[test]
fn tss_encodes_as_the_processor_reads_it() {
    let mut tss = Tss::new();
    set_kernel_stack(&mut tss, 0xFFFF_8000_0001_0000);
    tss.ist[0] = 0x1122_3344_5566_7788;
    tss.ist[6] = 0xA;
    let words = tss.encode();
    assert_eq!(words.len(), 26);
    assert_eq!(words[0], 0);
    assert_eq!(words[1], 0x0001_0000);
    assert_eq!(words[2], 0xFFFF_8000);
    assert_eq!(words[9], 0x5566_7788);
    assert_eq!(words[10], 0x1122_3344);
    assert_eq!(words[21], 0xA);
    assert_eq!(words[22], 0);
    assert_eq!(words[25], 104 << 16);
    for (i, w) in words.iter().enumerate() {
        if ![1, 2, 9, 10, 21, 25].contains(&i) {
            assert_eq!(*w, 0);
        }
    }
    assert_eq!(gdt::halves(0x1234_5678_9ABC_DEF0), (0x9ABC_DEF0, 0x1234_5678));
}
