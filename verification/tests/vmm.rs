use cuprux::mm::memory::PhysMemory;
use cuprux::mm::page_table::{
    pd_idx, pdpt_idx, pml4_idx, pt_idx, read_entry, walk_create, PageFlags, PageTableEntry,
    GLOBAL, KERNEL_RW, NO_EXEC, PRESENT, TABLE_FLAGS, USER, USER_RW, WRITABLE,
};
use cuprux::mm::pmm::{self, free_memory, BuddyAllocator, PhysAddr};
use cuprux::mm::vmm::{
    self, handle_page_fault, phys_to_virt, virt_to_phys, AddressSpace, VirtAddr, Vma, VmaKind,
    PHYSICAL_MAP_OFFSET,
};

const BASE: u64 = 0x100000;
const SIXTEEN_MIB: u64 = 16 * 1024 * 1024;

fn machine() -> (PhysMemory, BuddyAllocator) {
    let mem = PhysMemory::new(BASE, 4096).unwrap();
    let pmm = pmm::init(&[(BASE, SIXTEEN_MIB)]);
    (mem, pmm)
}

fn dirty_machine() -> (PhysMemory, BuddyAllocator) {
    let words = vec![0xA5A5_A5A5_A5A5_A5A5u64; 4096 * 512];
    let mem = PhysMemory::from_words(BASE, words).unwrap();
    let pmm = pmm::init(&[(BASE, SIXTEEN_MIB)]);
    (mem, pmm)
}

#[test]
fn flags_have_their_bits() {
    assert_eq!(PageFlags::present().bits(), 1);
    assert_eq!(PageFlags::writable().bits(), 2);
    assert_eq!(PageFlags::user().bits(), 4);
    assert_eq!(PageFlags::write_through().bits(), 8);
    assert_eq!(PageFlags::no_cache().bits(), 16);
    assert_eq!(PageFlags::global().bits(), 1 << 8);
    assert_eq!(PageFlags::no_exec().bits(), 1 << 63);
    assert_eq!(PageFlags::kernel_rw().bits(), PRESENT | WRITABLE | GLOBAL | NO_EXEC);
    assert_eq!(PageFlags::kernel_rw().bits(), KERNEL_RW);
    assert_eq!(PageFlags::user_rw().bits(), PRESENT | WRITABLE | USER | NO_EXEC);
    assert_eq!(PageFlags::user_rw().bits(), USER_RW);
    assert_eq!(PageFlags::from_bits_truncate(0xFFFF_FFFF_FFFF_FFFF).bits(), 0x8000_0000_0000_011F);
    assert!(PageFlags::user_rw().contains(PageFlags::writable()));
    assert!(!PageFlags::user_ex().contains(PageFlags::writable()));
    assert_eq!(
        PageFlags::present().union(PageFlags::user()).bits(),
        PageFlags::user_ex().bits()
    );
}

#[test]
fn entry_keeps_address_and_flags() {
    let e = PageTableEntry::new(PhysAddr::new(0x1234_5678), PageFlags::user_rw());
    assert!(e.is_present());
    assert_eq!(e.phys_addr(), PhysAddr::new(0x1234_5000));
    assert_eq!(e.flags(), PageFlags::user_rw());
    assert_eq!(e.0, 0x8000_0000_1234_5007);
    let absent = PageTableEntry(0);
    assert!(!absent.is_present());
}

#[test]
fn indices_are_nine_bits_each() {
    let v = VirtAddr::new(0xFFFF_8000_0020_3000);
    assert_eq!(pml4_idx(v), 256);
    assert_eq!(pdpt_idx(v), 0);
    assert_eq!(pd_idx(v), 1);
    assert_eq!(pt_idx(v), 3);
    let w = VirtAddr::new(0x0000_7FFF_FFFF_F000);
    assert_eq!(pml4_idx(w), 255);
    assert_eq!(pdpt_idx(w), 511);
    assert_eq!(pd_idx(w), 511);
    assert_eq!(pt_idx(w), 511);
}

#[test]
fn direct_map_there_and_back() {
    for p in [0u64, 0x1000, 0x100000, 0x7FFF_FFFF_FFFF] {
        let v = phys_to_virt(PhysAddr::new(p));
        assert_eq!(v.as_u64(), p + PHYSICAL_MAP_OFFSET);
        assert_eq!(virt_to_phys(v), PhysAddr::new(p));
    }
}

#[test]
fn map_translate_unmap() {
    let (mut mem, mut pmm) = machine();
    let mut space = AddressSpace::new(&mut mem, &mut pmm, None).unwrap();
    let v = VirtAddr::new(0x4000_0000);
    let p = PhysAddr::new(0x20_0000);
    assert_eq!(space.translate(&mem, v), None);
    let before = free_memory(&pmm);
    assert!(space.map(&mut mem, &mut pmm, v, p, PageFlags::user_rw()));
    // three tables were made on the way
    assert_eq!(free_memory(&pmm), before - 3 * 4096);
    assert_eq!(space.translate(&mem, v), Some(p));
    assert_eq!(
        space.translate(&mem, VirtAddr::new(0x4000_0123)),
        Some(PhysAddr::new(0x20_0123))
    );
    // a neighbour in the same table costs no frame and leaves the first alone
    let v2 = VirtAddr::new(0x4000_1000);
    assert!(space.map(&mut mem, &mut pmm, v2, PhysAddr::new(0x30_0000), PageFlags::user_rw()));
    assert_eq!(free_memory(&pmm), before - 3 * 4096);
    assert_eq!(space.translate(&mem, v), Some(p));
    assert_eq!(space.translate(&mem, v2), Some(PhysAddr::new(0x30_0000)));
    space.unmap(&mut mem, v);
    assert_eq!(space.translate(&mem, v), None);
    assert_eq!(space.translate(&mem, v2), Some(PhysAddr::new(0x30_0000)));
    // unmapping what is not mapped is silent
    space.unmap(&mut mem, VirtAddr::new(0x7000_0000_0000));
    assert_eq!(space.translate(&mem, v2), Some(PhysAddr::new(0x30_0000)));
    // mapping anew replaces
    assert!(space.map(&mut mem, &mut pmm, v2, PhysAddr::new(0x50_0000), PageFlags::user_rw()));
    assert_eq!(space.translate(&mem, v2), Some(PhysAddr::new(0x50_0000)));
}

#[test]
fn map_without_present_does_not_translate() {
    let (mut mem, mut pmm) = machine();
    let mut space = AddressSpace::new(&mut mem, &mut pmm, None).unwrap();
    let v = VirtAddr::new(0x4000_0000);
    assert!(space.map(&mut mem, &mut pmm, v, PhysAddr::new(0x20_0000), PageFlags::writable()));
    assert_eq!(space.translate(&mem, v), None);
}

#[test]
fn map_fails_without_frames() {
    let mem_and_pmm = machine();
    let (mut mem, mut pmm) = mem_and_pmm;
    let mut space = AddressSpace::new(&mut mem, &mut pmm, None).unwrap();
    while pmm::alloc_page(&mut pmm).is_some() {}
    let v = VirtAddr::new(0x4000_0000);
    assert!(!space.map(&mut mem, &mut pmm, v, PhysAddr::new(0x20_0000), PageFlags::user_rw()));
    assert_eq!(space.translate(&mem, v), None);
    assert!(AddressSpace::new(&mut mem, &mut pmm, None).is_none());
}

#[test]
fn regions_are_found() {
    let (mut mem, mut pmm) = machine();
    let mut space = AddressSpace::new(&mut mem, &mut pmm, None).unwrap();
    assert!(space.find_vma(VirtAddr::new(0x4000_0000)).is_none());
    assert!(space.map_anonymous(VirtAddr::new(0x4000_0000), 8192, PageFlags::user_rw()));
    let found = *space.find_vma(VirtAddr::new(0x4000_1FFF)).unwrap();
    assert_eq!(found.start, VirtAddr::new(0x4000_0000));
    assert_eq!(found.end, VirtAddr::new(0x4000_2000));
    assert_eq!(found.kind, VmaKind::Anonymous);
    assert_eq!(found.size(), 8192);
    assert!(found.contains(VirtAddr::new(0x4000_0000)));
    assert!(!found.contains(VirtAddr::new(0x4000_2000)));
    assert!(space.find_vma(VirtAddr::new(0x4000_2000)).is_none());
    assert!(space.find_vma(VirtAddr::new(0x3FFF_FFFF)).is_none());
}

#[test]
fn region_list_is_bounded() {
    let (mut mem, mut pmm) = machine();
    let mut space = AddressSpace::new(&mut mem, &mut pmm, None).unwrap();
    for i in 0..64u64 {
        let vma = Vma {
            start: VirtAddr::new(i * 0x10000),
            end: VirtAddr::new(i * 0x10000 + 0x1000),
            flags: PageFlags::user_rw(),
            kind: VmaKind::Kernel,
        };
        assert!(space.add_vma(vma));
    }
    assert!(!space.map_anonymous(VirtAddr::new(0x4000_0000), 4096, PageFlags::user_rw()));
    assert!(space.find_vma(VirtAddr::new(0x4000_0000)).is_none());
    assert!(space.find_vma(VirtAddr::new(63 * 0x10000)).is_some());
}

#[test]
fn shared_region_is_mapped_at_once() {
    let (mut mem, mut pmm) = machine();
    let mut space = AddressSpace::new(&mut mem, &mut pmm, None).unwrap();
    let start = VirtAddr::new(0x6000_0000);
    let phys = PhysAddr::new(0x80_0000);
    assert!(space.map_shared(&mut mem, &mut pmm, start, phys, 3 * 4096, PageFlags::user_rw()));
    for off in [0u64, 0x1000, 0x2000, 0x2FFF] {
        assert_eq!(
            space.translate(&mem, VirtAddr::new(0x6000_0000 + off)),
            Some(PhysAddr::new(0x80_0000 + off))
        );
    }
    assert_eq!(space.translate(&mem, VirtAddr::new(0x6000_3000)), None);
    let vma = *space.find_vma(VirtAddr::new(0x6000_1000)).unwrap();
    assert_eq!(vma.kind, VmaKind::Shared(phys));
    // a fault on a shared region is not served
    assert!(!handle_page_fault(&mut space, &mut mem, &mut pmm, VirtAddr::new(0x6000_1000), 0));
}

#[test]
fn lazy_anonymous_fault_gives_zeroed_page() {
    let (mut mem, mut pmm) = dirty_machine();
    let mut space = AddressSpace::new(&mut mem, &mut pmm, None).unwrap();
    let addr = VirtAddr::new(0x4000_0000);
    assert!(space.map_anonymous(addr, 8192, PageFlags::user_rw()));
    // nothing is mapped yet: the read faults
    assert_eq!(space.translate(&mem, addr), None);
    assert!(handle_page_fault(&mut space, &mut mem, &mut pmm, addr, 0));
    let phys = space.translate(&mem, addr).unwrap();
    assert_eq!(mem.read_byte(phys), 0);
    for off in 0..4096u64 {
        let p = space.translate(&mem, VirtAddr::new(0x4000_0000 + off)).unwrap();
        assert_eq!(mem.read_byte(p), 0);
    }
    // the second page of the region is still to come
    assert_eq!(space.translate(&mem, VirtAddr::new(0x4000_1000)), None);
    assert!(handle_page_fault(&mut space, &mut mem, &mut pmm, VirtAddr::new(0x4000_1234), 0x2));
    let second = space.translate(&mem, VirtAddr::new(0x4000_1234)).unwrap();
    assert_eq!(second.as_u64() & 0xFFF, 0x234);
    assert_ne!(second.as_u64() & !0xFFF, phys.as_u64());
}

#[test]
fn write_fault_on_read_only_region_is_refused() {
    let (mut mem, mut pmm) = machine();
    let mut space = AddressSpace::new(&mut mem, &mut pmm, None).unwrap();
    let addr = VirtAddr::new(0x5000_0000);
    let read_only = PageFlags::present().union(PageFlags::user()).union(PageFlags::no_exec());
    assert!(space.map_anonymous(addr, 4096, read_only));
    let before = free_memory(&pmm);
    assert!(!handle_page_fault(&mut space, &mut mem, &mut pmm, addr, 0x2));
    assert_eq!(space.translate(&mem, addr), None);
    assert_eq!(free_memory(&pmm), before);
    // a read of the same page is served
    assert!(handle_page_fault(&mut space, &mut mem, &mut pmm, addr, 0));
    assert!(space.translate(&mem, addr).is_some());
}

#[test]
fn fault_outside_any_region_is_refused() {
    let (mut mem, mut pmm) = machine();
    let mut space = AddressSpace::new(&mut mem, &mut pmm, None).unwrap();
    assert!(!handle_page_fault(&mut space, &mut mem, &mut pmm, VirtAddr::new(0x1234_5000), 0));
}

#[test]
fn fault_without_frames_is_refused_and_leaks_nothing() {
    let (mut mem, mut pmm) = machine();
    let mut space = AddressSpace::new(&mut mem, &mut pmm, None).unwrap();
    let addr = VirtAddr::new(0x4000_0000);
    assert!(space.map_anonymous(addr, 4096, PageFlags::user_rw()));
    let mut held = Vec::new();
    while let Some(p) = pmm::alloc_page(&mut pmm) {
        held.push(p);
    }
    assert!(!handle_page_fault(&mut space, &mut mem, &mut pmm, addr, 0));
    // one frame: enough for the page, not for the tables; it goes back
    pmm::free_page(&mut pmm, held.pop().unwrap());
    assert_eq!(free_memory(&pmm), 4096);
    assert!(!handle_page_fault(&mut space, &mut mem, &mut pmm, addr, 0));
    assert_eq!(free_memory(&pmm), 4096);
    assert_eq!(space.translate(&mem, addr), None);
}

#[test]
fn kernel_space_maps_low_memory_at_direct_map() {
    let (mut mem, mut pmm) = machine();
    let before = free_memory(&pmm);
    let space = vmm::init(&mut mem, &mut pmm).unwrap();
    // root, one table at each of the next two depths, eight tables of leaves
    assert_eq!(free_memory(&pmm), before - 11 * 4096);
    for off in [0u64, 0x1000, 0x123456, SIXTEEN_MIB - 1] {
        assert_eq!(
            space.translate(&mem, VirtAddr::new(PHYSICAL_MAP_OFFSET + off)),
            Some(PhysAddr::new(off))
        );
    }
    assert_eq!(
        space.translate(&mem, VirtAddr::new(PHYSICAL_MAP_OFFSET + SIXTEEN_MIB)),
        None
    );
    assert_eq!(space.translate(&mem, VirtAddr::new(0x1000)), None);
    assert_eq!(space.activate(), space.pml4.as_u64());
}

#[test]
fn new_space_shares_kernel_half() {
    let (mut mem, mut pmm) = machine();
    let kernel = vmm::init(&mut mem, &mut pmm).unwrap();
    let mut task = AddressSpace::new(&mut mem, &mut pmm, Some(&kernel)).unwrap();
    assert_ne!(task.pml4, kernel.pml4);
    assert_eq!(
        task.translate(&mem, VirtAddr::new(PHYSICAL_MAP_OFFSET + 0x5000)),
        Some(PhysAddr::new(0x5000))
    );
    assert!(task.map(
        &mut mem,
        &mut pmm,
        VirtAddr::new(0x4000_0000),
        PhysAddr::new(0x20_0000),
        PageFlags::user_rw()
    ));
    assert_eq!(kernel.translate(&mem, VirtAddr::new(0x4000_0000)), None);
    assert_eq!(
        task.translate(&mem, VirtAddr::new(0x4000_0000)),
        Some(PhysAddr::new(0x20_0000))
    );
}

#[test]
fn tables_on_the_way_are_open() {
    let (mut mem, mut pmm) = machine();
    let mut space = AddressSpace::new(&mut mem, &mut pmm, None).unwrap();
    let v = VirtAddr::new(0x4000_0000);
    // the leaf is read only and closed to user mode; the tables above it are not
    assert!(space.map(&mut mem, &mut pmm, v, PhysAddr::new(0x20_0000), PageFlags::kernel_ro()));
    let root = space.root_table();
    assert_eq!(root, space.pml4);
    let e0 = read_entry(&mem, root, pml4_idx(v));
    assert_eq!(e0.flags().bits(), TABLE_FLAGS);
    assert_eq!(TABLE_FLAGS, 7);
    let e1 = read_entry(&mem, e0.phys_addr(), pdpt_idx(v));
    assert_eq!(e1.flags().bits(), 7);
    let e2 = read_entry(&mem, e1.phys_addr(), pd_idx(v));
    assert_eq!(e2.flags().bits(), 7);
    let e3 = read_entry(&mem, e2.phys_addr(), pt_idx(v));
    assert_eq!(e3.flags(), PageFlags::kernel_ro());
    assert_eq!(e3.phys_addr(), PhysAddr::new(0x20_0000));
    // the walk finds the same table of leaves again and takes no frame
    let before = free_memory(&pmm);
    assert_eq!(walk_create(&mut mem, &mut pmm, root, v), Some(e2.phys_addr()));
    assert_eq!(free_memory(&pmm), before);
    // every other entry of the root is empty
    for i in 0..512 {
        if i != pml4_idx(v) {
            assert_eq!(read_entry(&mem, root, i).0, 0);
        }
    }
}

#[test]
fn address_as_machine_word() {
    assert_eq!(VirtAddr::new(0x1234).as_usize(), 0x1234);
    assert_eq!(PhysAddr::new(0x5000).as_usize(), 0x5000);
    assert_eq!(PhysAddr::new(0x5FFF).pfn(), 5);
}

fn small_machine(frames: u64) -> (PhysMemory, BuddyAllocator) {
    let mem = PhysMemory::new(BASE, 4096).unwrap();
    let pmm = pmm::init(&[(BASE, frames * 4096)]);
    (mem, pmm)
}

#[test]
fn kernel_space_takes_eleven_frames() {
    let (mut mem, mut pmm) = small_machine(11);
    assert!(vmm::init(&mut mem, &mut pmm).is_some());
    assert_eq!(free_memory(&pmm), 0);
    let (mut mem, mut pmm) = small_machine(10);
    assert!(vmm::init(&mut mem, &mut pmm).is_none());
    assert_eq!(free_memory(&pmm), 0);
    let (mut mem, mut pmm) = small_machine(12);
    assert!(vmm::init(&mut mem, &mut pmm).is_some());
    assert_eq!(free_memory(&pmm), 4096);
    assert_eq!(vmm::KERNEL_SPACE_FRAMES, 11);
}

#[test]
fn a_range_takes_the_tables_that_its_pages_lack() {
    let (mut mem, mut pmm) = machine();
    let mut space = AddressSpace::new(&mut mem, &mut pmm, None).unwrap();
    let before = free_memory(&pmm);
    // 513 pages from a 2 MiB boundary on: two tables on the way, two tables of leaves
    let start = VirtAddr::new(0x4000_0000);
    assert!(space.map_range(
        &mut mem,
        &mut pmm,
        start,
        PhysAddr::new(0x20_0000),
        513 * 4096,
        PageFlags::user_rw()
    ));
    assert_eq!(free_memory(&pmm), before - 4 * 4096);
    assert_eq!(
        space.translate(&mem, VirtAddr::new(0x4000_0000 + 512 * 4096 + 5)),
        Some(PhysAddr::new(0x20_0000 + 512 * 4096 + 5))
    );
    assert_eq!(space.translate(&mem, VirtAddr::new(0x4000_0000 + 513 * 4096)), None);
    // a second range next to it shares all but one table of leaves
    let before = free_memory(&pmm);
    assert!(space.map_range(
        &mut mem,
        &mut pmm,
        VirtAddr::new(0x4000_0000 + 1023 * 4096),
        PhysAddr::new(0x80_0000),
        2 * 4096,
        PageFlags::user_rw()
    ));
    assert_eq!(free_memory(&pmm), before - 4096);
    // no region was recorded
    assert!(space.find_vma(start).is_none());
}

#[test]
fn a_range_is_not_mapped_where_the_frames_run_out() {
    let (mut mem, mut pmm) = small_machine(4);
    let mut space = AddressSpace::new(&mut mem, &mut pmm, None).unwrap();
    // three frames are left: enough for the first 512 pages, not for the next
    let start = VirtAddr::new(0x4000_0000);
    assert!(!space.map_shared(
        &mut mem,
        &mut pmm,
        start,
        PhysAddr::new(0x20_0000),
        513 * 4096,
        PageFlags::user_rw()
    ));
    assert_eq!(free_memory(&pmm), 0);
    for page in [0u64, 1, 511, 512] {
        assert_eq!(space.translate(&mem, VirtAddr::new(0x4000_0000 + page * 4096)), None);
    }
    assert!(space.find_vma(start).is_none());
}

#[test]
fn a_range_that_fails_leaves_what_was_mapped() {
    let (mut mem, mut pmm) = small_machine(4);
    let mut space = AddressSpace::new(&mut mem, &mut pmm, None).unwrap();
    let start = VirtAddr::new(0x4000_0000);
    assert!(space.map(&mut mem, &mut pmm, start, PhysAddr::new(0x90_0000), PageFlags::user_rw()));
    assert!(!space.map_range(
        &mut mem,
        &mut pmm,
        start,
        PhysAddr::new(0x20_0000),
        513 * 4096,
        PageFlags::user_rw()
    ));
    assert_eq!(space.translate(&mem, start), Some(PhysAddr::new(0x90_0000)));
    assert_eq!(space.translate(&mem, VirtAddr::new(0x4000_1000)), None);
}

#[test]
fn a_shared_region_needs_room_in_the_list() {
    let (mut mem, mut pmm) = machine();
    let mut space = AddressSpace::new(&mut mem, &mut pmm, None).unwrap();
    for i in 0..64u64 {
        assert!(space.map_anonymous(VirtAddr::new(i * 0x10000), 0x1000, PageFlags::user_rw()));
    }
    let start = VirtAddr::new(0x4000_0000);
    let before = free_memory(&pmm);
    assert!(!space.map_shared(
        &mut mem,
        &mut pmm,
        start,
        PhysAddr::new(0x20_0000),
        4096,
        PageFlags::user_rw()
    ));
    // nothing is mapped, no frame is taken
    assert_eq!(space.translate(&mem, start), None);
    assert_eq!(free_memory(&pmm), before);
    assert!(space.find_vma(start).is_none());
}

#[test]
fn kernel_pages_carry_the_kernel_flags() {
    let (mut mem, mut pmm) = machine();
    let space = vmm::init(&mut mem, &mut pmm).unwrap();
    for off in [0u64, 0x1000, 0x20_0000, SIXTEEN_MIB - 4096] {
        let v = VirtAddr::new(PHYSICAL_MAP_OFFSET + off);
        let e0 = read_entry(&mem, space.root_table(), pml4_idx(v));
        let e1 = read_entry(&mem, e0.phys_addr(), pdpt_idx(v));
        let e2 = read_entry(&mem, e1.phys_addr(), pd_idx(v));
        let e3 = read_entry(&mem, e2.phys_addr(), pt_idx(v));
        assert_eq!(e3.0, off | KERNEL_RW);
        assert_eq!(e3.flags(), PageFlags::kernel_rw());
    }
}

#[test]
fn a_leaf_without_present_is_written_as_given() {
    let (mut mem, mut pmm) = machine();
    let mut space = AddressSpace::new(&mut mem, &mut pmm, None).unwrap();
    let v = VirtAddr::new(0x4000_0000);
    assert!(space.map(&mut mem, &mut pmm, v, PhysAddr::new(0x20_0000), PageFlags::writable()));
    let e0 = read_entry(&mem, space.root_table(), pml4_idx(v));
    let e1 = read_entry(&mem, e0.phys_addr(), pdpt_idx(v));
    let e2 = read_entry(&mem, e1.phys_addr(), pd_idx(v));
    assert_eq!(read_entry(&mem, e2.phys_addr(), pt_idx(v)).0, 0x20_0000 | WRITABLE);
    space.unmap(&mut mem, v);
    assert_eq!(read_entry(&mem, e2.phys_addr(), pt_idx(v)).0, 0);
}
