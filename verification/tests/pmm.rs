use cuprux::mm::bitmap::Bitmap;
use cuprux::mm::pmm::{
    align_down, align_up, alloc_page, alloc_pages, free_memory, free_page, free_pages, init,
    total_memory, BuddyAllocator, PhysAddr, MAX_ORDER, PAGE_SIZE,
};

const BASE: u64 = 0x100000;
const SIXTEEN_MIB: u64 = 16 * 1024 * 1024;

#[test]
fn exhaustion_after_all_pages() {
    let mut pmm = init(&[(BASE, SIXTEEN_MIB)]);
    assert_eq!(total_memory(&pmm), SIXTEEN_MIB);
    assert_eq!(free_memory(&pmm), SIXTEEN_MIB);
    for _ in 0..4096 {
        assert!(alloc_page(&mut pmm).is_some());
    }
    assert_eq!(alloc_page(&mut pmm), None);
    assert_eq!(free_memory(&pmm), 0);
    assert_eq!(total_memory(&pmm), SIXTEEN_MIB);
}

#[test]
fn split_then_merge() {
    let mut pmm = init(&[(BASE, SIXTEEN_MIB)]);
    let mut blocks: Vec<PhysAddr> = Vec::new();
    for _ in 0..4 {
        let b = alloc_pages(&mut pmm, 3).unwrap();
        assert_eq!(b.as_u64() % (8 * PAGE_SIZE as u64), 0);
        blocks.push(b);
    }
    assert_eq!(
        blocks,
        vec![
            PhysAddr(0x100000),
            PhysAddr(0x108000),
            PhysAddr(0x110000),
            PhysAddr(0x118000)
        ]
    );
    for b in blocks.iter().rev() {
        free_pages(&mut pmm, *b, 3);
    }
    assert_eq!(free_memory(&pmm), SIXTEEN_MIB);
    let big = alloc_pages(&mut pmm, 5).unwrap();
    let lowest = blocks.iter().map(|b| b.as_u64()).min().unwrap();
    assert_eq!(big.as_u64(), lowest);
}

#[test]
fn order_out_of_range_fails() {
    let mut pmm = init(&[(BASE, SIXTEEN_MIB)]);
    assert_eq!(alloc_pages(&mut pmm, MAX_ORDER), None);
    assert_eq!(alloc_pages(&mut pmm, MAX_ORDER + 5), None);
    assert_eq!(free_memory(&pmm), SIXTEEN_MIB);
}

#[test]
fn alloc_free_conserves_free_memory() {
    let mut pmm = init(&[(BASE, SIXTEEN_MIB)]);
    let before = free_memory(&pmm);
    for order in 0..MAX_ORDER {
        let a = alloc_pages(&mut pmm, order).unwrap();
        assert_eq!(free_memory(&pmm), before - ((PAGE_SIZE as u64) << order));
        free_pages(&mut pmm, a, order);
        assert_eq!(free_memory(&pmm), before);
    }
}

#[test]
fn freed_page_comes_back() {
    let mut pmm = init(&[(BASE, SIXTEEN_MIB)]);
    let a = alloc_page(&mut pmm).unwrap();
    let b = alloc_page(&mut pmm).unwrap();
    assert_ne!(a, b);
    free_page(&mut pmm, a);
    assert_eq!(alloc_page(&mut pmm), Some(a));
}

#[test]
fn regions_are_cut_to_whole_pages() {
    // begins 1 byte after a boundary, ends 1 byte before one
    let mut pmm = init(&[(0x100001, 3 * 4096 - 2)]);
    assert_eq!(total_memory(&pmm), 4096);
    assert_eq!(alloc_page(&mut pmm), Some(PhysAddr(0x101000)));
    assert_eq!(alloc_page(&mut pmm), None);
}

#[test]
fn regions_that_cannot_be_added_are_dropped() {
    // empty, below 1 MiB, overlapping the one before, too far above the first
    let pmm = init(&[
        (0x200000, 0),
        (0x1000, 0x10000),
        (0x200000, 0x10000),
        (0x208000, 0x10000),
        (0x2_0020_0000, 0x10000),
        (0x300000, 0x4000),
    ]);
    assert_eq!(total_memory(&pmm), 0x10000 + 0x4000);
    assert_eq!(free_memory(&pmm), 0x10000 + 0x4000);
}

#[test]
fn allocations_take_the_lowest_block() {
    let mut pmm = init(&[(BASE, SIXTEEN_MIB)]);
    assert_eq!(alloc_page(&mut pmm), Some(PhysAddr(0x100000)));
    assert_eq!(alloc_page(&mut pmm), Some(PhysAddr(0x101000)));
    assert_eq!(alloc_pages(&mut pmm, 1), Some(PhysAddr(0x102000)));
    assert_eq!(alloc_pages(&mut pmm, 10), Some(PhysAddr(0x400000)));
    assert_eq!(alloc_pages(&mut pmm, 2), Some(PhysAddr(0x104000)));
}

#[test]
fn buddies_join_into_the_next_order() {
    let mut pmm = init(&[(BASE, 8 * 4096)]);
    let a = alloc_pages(&mut pmm, 2).unwrap();
    let b = alloc_pages(&mut pmm, 2).unwrap();
    assert_eq!(alloc_pages(&mut pmm, 3), None);
    free_pages(&mut pmm, a, 2);
    assert_eq!(alloc_pages(&mut pmm, 3), None);
    free_pages(&mut pmm, b, 2);
    assert_eq!(alloc_pages(&mut pmm, 3), Some(PhysAddr(BASE)));
}

#[test]
fn rounding_to_boundaries() {
    assert_eq!(align_up(0, 4096), 0);
    assert_eq!(align_up(1, 4096), 4096);
    assert_eq!(align_up(4096, 4096), 4096);
    assert_eq!(align_up(4097, 4096), 8192);
    assert_eq!(align_down(4095, 4096), 0);
    assert_eq!(align_down(4096, 4096), 4096);
    assert_eq!(align_down(8191, 4096), 4096);
    assert_eq!(align_up(17, 16), 32);
    assert_eq!(align_down(17, 16), 16);
    assert_eq!(align_up(u64::MAX - 4095, 4096), u64::MAX - 4095);
}

#[test]
fn bitmap_finds_the_lowest_bit_below_its_limit() {
    let mut b = Bitmap::new();
    assert_eq!(b.find_free(), None);
    b.set(130, true);
    assert!(b.get(130));
    assert!(!b.get(129));
    // the bit lies above the limit: it is not found
    assert_eq!(b.len(), 0);
    assert_eq!(b.find_free(), None);
    b.raise_limit(131);
    assert_eq!(b.find_free(), Some(130));
    b.set(64, true);
    b.set(1_048_575, true);
    assert_eq!(b.find_free(), Some(64));
    b.raise_limit(10);
    assert_eq!(b.len(), 131);
    b.set(64, false);
    b.set(130, false);
    assert_eq!(b.find_free(), None);
    b.raise_limit(1_048_576);
    assert_eq!(b.find_free(), Some(1_048_575));
}

#[test]
fn allocator_by_hand() {
    let mut pmm = BuddyAllocator::new();
    assert_eq!(free_memory(&pmm), 0);
    assert_eq!(pmm.allocate(0), None);
    assert!(!pmm.accepts_region(0x1000, 0x10000));
    assert!(!pmm.accepts_region(0x200000, 0xFFF));
    assert!(!pmm.accepts_region(u64::MAX - 10, 100));
    assert!(pmm.accepts_region(0x200000, 0x3000));
    pmm.add_region(0x200000, 0x3000);
    assert_eq!(total_memory(&pmm), 0x3000);
    assert!(!pmm.accepts_region(0x202000, 0x2000));
    assert!(pmm.accepts_region(0x100000, 0x1000));
    assert!(!pmm.accepts_region(0xFFFF_F000, 0x2000));
    assert!(!pmm.page_is_free(0));
    assert!(pmm.page_is_free(0x200));
    assert!(pmm.page_is_free(0x202));
    assert!(!pmm.page_is_free(0x203));
    assert!(!pmm.page_is_free(usize::MAX));
    // pages 0 and 1 are one block of order 1, page 2 is alone
    assert_eq!(pmm.allocate(0), Some(PhysAddr(0x202000)));
    assert_eq!(pmm.allocate(1), Some(PhysAddr(0x200000)));
    assert_eq!(pmm.allocate(0), None);
    pmm.free(PhysAddr(0x200000), 1);
    assert_eq!(pmm.allocate(0), Some(PhysAddr(0x200000)));
    assert!(pmm.page_is_free(0x201));
    assert!(pmm.accepts_region(0x203000, 0x1000));
}

#[test]
fn blocks_are_aligned_to_their_size() {
    // the first page lies at a multiple of the largest block
    let mut pmm = init(&[(0x400000, SIXTEEN_MIB)]);
    for order in 0..MAX_ORDER {
        let a = alloc_pages(&mut pmm, order).unwrap();
        assert_eq!(a.as_u64() % ((PAGE_SIZE as u64) << order), 0);
    }
}

#[test]
fn blocks_are_aligned_wherever_memory_begins() {
    // memory begins at 1 MiB: blocks of 2 MiB and 4 MiB lie at multiples of
    // their size all the same
    let mut pmm = init(&[(BASE, SIXTEEN_MIB)]);
    let a = alloc_pages(&mut pmm, 9).unwrap();
    assert_eq!(a, PhysAddr(0x200000));
    assert_eq!(a.as_u64() % (512 * 4096), 0);
    let b = alloc_pages(&mut pmm, 10).unwrap();
    assert_eq!(b, PhysAddr(0x400000));
    assert_eq!(b.as_u64() % (1024 * 4096), 0);
    for order in 0..MAX_ORDER {
        while let Some(c) = alloc_pages(&mut pmm, order) {
            assert_eq!(c.as_u64() % ((PAGE_SIZE as u64) << order), 0);
        }
    }
}

#[test]
fn regions_are_taken_in_any_order() {
    let mut pmm = init(&[(0x800000, 0x2000), (0x200000, 0x1000), (0x400000, 0x1000)]);
    assert_eq!(total_memory(&pmm), 0x4000);
    assert_eq!(alloc_page(&mut pmm), Some(PhysAddr(0x200000)));
    assert_eq!(alloc_page(&mut pmm), Some(PhysAddr(0x400000)));
    assert_eq!(alloc_pages(&mut pmm, 1), Some(PhysAddr(0x800000)));
    assert_eq!(alloc_page(&mut pmm), None);
}
