use cuprux::mm::heap::{self, order_of, slab_size, KernelHeap, SlabCache};
use cuprux::mm::memory::PhysMemory;
use cuprux::mm::pmm::{self, free_memory, BuddyAllocator};
use cuprux::mm::vmm::{VirtAddr, PHYSICAL_MAP_OFFSET};

const BASE: u64 = 0x100000;
const SIXTEEN_MIB: u64 = 16 * 1024 * 1024;

fn machine() -> (PhysMemory, BuddyAllocator) {
    let mem = PhysMemory::new(BASE, 4096).unwrap();
    let pmm = pmm::init(&[(BASE, SIXTEEN_MIB)]);
    (mem, pmm)
}

#[test]
fn classes_and_orders() {
    let sizes: Vec<usize> = (0..9).map(slab_size).collect();
    assert_eq!(sizes, vec![8, 16, 32, 64, 128, 256, 512, 1024, 2048]);
    assert_eq!(KernelHeap::slab_index(0), Some(0));
    assert_eq!(KernelHeap::slab_index(8), Some(0));
    assert_eq!(KernelHeap::slab_index(9), Some(1));
    assert_eq!(KernelHeap::slab_index(64), Some(3));
    assert_eq!(KernelHeap::slab_index(65), Some(4));
    assert_eq!(KernelHeap::slab_index(2048), Some(8));
    assert_eq!(KernelHeap::slab_index(2049), None);
    assert_eq!(order_of(2049), 0);
    assert_eq!(order_of(4096), 0);
    assert_eq!(order_of(4097), 1);
    assert_eq!(order_of(3 * 4096), 2);
    assert_eq!(order_of(4 * 4096 + 1), 3);
    assert_eq!(order_of(1024 * 4096), 10);
    assert_eq!(order_of(1024 * 4096 + 1), 11);
}

#[test]
fn init_primes_every_class() {
    let (mut mem, mut pmm) = machine();
    let before = free_memory(&pmm);
    let heap = heap::init(&mut mem, &mut pmm);
    assert_eq!(free_memory(&pmm), before - 9 * 4096);
    assert_eq!(heap::used(&heap), 0);
}

#[test]
fn slab_is_last_in_first_out() {
    let (mut mem, mut pmm) = machine();
    let mut heap = heap::init(&mut mem, &mut pmm);
    let mut a: Vec<VirtAddr> = Vec::new();
    for _ in 0..8 {
        a.push(heap.allocate(&mut mem, &mut pmm, 64, 8).unwrap());
    }
    for i in 0..8 {
        for j in 0..i {
            let (x, y) = (a[i].as_u64(), a[j].as_u64());
            assert!(x + 64 <= y || y + 64 <= x);
        }
        assert_eq!(a[i].as_u64() % 64, 0);
        assert!(a[i].as_u64() >= PHYSICAL_MAP_OFFSET);
    }
    assert_eq!(heap::used(&heap), 8 * 64);
    heap.dealloc(&mut mem, &mut pmm, a[2], 64, 8);
    heap.dealloc(&mut mem, &mut pmm, a[6], 64, 8);
    assert_eq!(heap::used(&heap), 6 * 64);
    assert_eq!(heap.allocate(&mut mem, &mut pmm, 64, 8), Some(a[6]));
    assert_eq!(heap.allocate(&mut mem, &mut pmm, 64, 8), Some(a[2]));
}

#[test]
fn cells_come_lowest_first_from_a_fresh_frame() {
    let (mut mem, mut pmm) = machine();
    let mut heap = heap::init(&mut mem, &mut pmm);
    let first = heap.allocate(&mut mem, &mut pmm, 2048, 1).unwrap();
    let second = heap.allocate(&mut mem, &mut pmm, 2048, 1).unwrap();
    assert_eq!(second.as_u64(), first.as_u64() + 2048);
    let before = free_memory(&pmm);
    // the class is empty now: the next cell takes a new frame
    let third = heap.allocate(&mut mem, &mut pmm, 2048, 1).unwrap();
    assert_eq!(free_memory(&pmm), before - 4096);
    assert_eq!(third.as_u64() % 4096, 0);
    assert_ne!(third.as_u64() & !0xFFF, first.as_u64() & !0xFFF);
}

#[test]
fn alignment_picks_the_class() {
    let (mut mem, mut pmm) = machine();
    let mut heap = heap::init(&mut mem, &mut pmm);
    let p = heap.allocate(&mut mem, &mut pmm, 8, 256).unwrap();
    assert_eq!(p.as_u64() % 256, 0);
    assert_eq!(heap::used(&heap), 256);
    heap.dealloc(&mut mem, &mut pmm, p, 8, 256);
    assert_eq!(heap::used(&heap), 0);
    assert_eq!(heap.allocate(&mut mem, &mut pmm, 200, 8), Some(p));
}

#[test]
fn large_objects_come_from_the_frame_allocator() {
    let (mut mem, mut pmm) = machine();
    let mut heap = heap::init(&mut mem, &mut pmm);
    let before = free_memory(&pmm);
    let p = heap.allocate(&mut mem, &mut pmm, 3 * 4096, 8).unwrap();
    assert_eq!(free_memory(&pmm), before - 4 * 4096);
    assert_eq!((p.as_u64() - PHYSICAL_MAP_OFFSET) % (4 * 4096), 0);
    heap.dealloc(&mut mem, &mut pmm, p, 3 * 4096, 8);
    assert_eq!(free_memory(&pmm), before);
    // larger than the largest block
    assert_eq!(heap.allocate(&mut mem, &mut pmm, 8 * 1024 * 1024, 8), None);
}

#[test]
fn exhaustion_gives_none() {
    let (mut mem, mut pmm) = machine();
    let mut heap = heap::init(&mut mem, &mut pmm);
    while pmm::alloc_page(&mut pmm).is_some() {}
    let mut got = 0;
    while heap.allocate(&mut mem, &mut pmm, 1024, 8).is_some() {
        got += 1;
    }
    assert_eq!(got, 4);
    assert_eq!(heap.allocate(&mut mem, &mut pmm, 4097, 8), None);
}

#[test]
fn one_class_alone() {
    let (mut mem, mut pmm) = machine();
    let mut slab = SlabCache::new(512);
    assert_eq!(slab.allocate(&mut mem, &mut pmm).map(|v| v.as_u64() % 4096), Some(0));
    let b = slab.allocate(&mut mem, &mut pmm).unwrap();
    slab.free(&mut mem, b);
    assert_eq!(slab.allocate(&mut mem, &mut pmm), Some(b));
    slab.grow(&mut mem, &mut pmm);
    let c = slab.allocate(&mut mem, &mut pmm).unwrap();
    assert_eq!(c.as_u64() % 4096, 0);
    assert_ne!(c.as_u64() & !0xFFF, b.as_u64() & !0xFFF);
}

#[test]
fn a_new_heap_can_grow() {
    let (mut mem, mut pmm) = machine();
    assert!(KernelHeap::new().can_grow());
    let heap = heap::init(&mut mem, &mut pmm);
    assert!(heap.can_grow());
}

#[test]
fn a_large_object_is_aligned_as_asked() {
    let (mut mem, mut pmm) = machine();
    let mut heap = heap::init(&mut mem, &mut pmm);
    let two_mib: usize = 2 * 1024 * 1024;
    let before = free_memory(&pmm);
    let p = heap.allocate(&mut mem, &mut pmm, two_mib, two_mib).unwrap();
    assert_eq!(p.as_u64() % two_mib as u64, 0);
    assert_eq!((p.as_u64() - PHYSICAL_MAP_OFFSET) % two_mib as u64, 0);
    let q = heap.allocate(&mut mem, &mut pmm, 4096, 65536).unwrap();
    assert_eq!(q.as_u64() % 65536, 0);
    heap.dealloc(&mut mem, &mut pmm, q, 4096, 65536);
    heap.dealloc(&mut mem, &mut pmm, p, two_mib, two_mib);
    assert_eq!(free_memory(&pmm), before);
}

#[test]
fn every_class_hands_out_aligned_cells_that_go_back() {
    let (mut mem, mut pmm) = machine();
    let mut heap = heap::init(&mut mem, &mut pmm);
    let before = free_memory(&pmm);
    let mut got: Vec<(VirtAddr, usize)> = Vec::new();
    for idx in 0..9 {
        let size = slab_size(idx);
        for _ in 0..3 {
            let p = heap.allocate(&mut mem, &mut pmm, 1, size).unwrap();
            assert_eq!(p.as_u64() % size as u64, 0);
            assert!(got.iter().all(|(q, _)| *q != p));
            got.push((p, size));
        }
    }
    let total: usize = got.iter().map(|(_, s)| *s).sum();
    assert_eq!(heap::used(&heap), total);
    // a frame holds two cells of 2048 bytes: the third took one more frame
    assert_eq!(free_memory(&pmm), before - 4096);
    while let Some((p, size)) = got.pop() {
        heap.dealloc(&mut mem, &mut pmm, p, 1, size);
    }
    assert_eq!(heap::used(&heap), 0);
}

#[test]
fn cells_of_two_classes_lie_in_different_frames() {
    let (mut mem, mut pmm) = machine();
    let mut heap = heap::init(&mut mem, &mut pmm);
    let a = heap.allocate(&mut mem, &mut pmm, 8, 8).unwrap();
    let b = heap.allocate(&mut mem, &mut pmm, 16, 8).unwrap();
    assert_ne!(a.as_u64() & !0xFFF, b.as_u64() & !0xFFF);
    // a class that has run out takes a frame that no class has
    let mut last = heap.allocate(&mut mem, &mut pmm, 2048, 8).unwrap();
    let first = last;
    for _ in 0..2 {
        last = heap.allocate(&mut mem, &mut pmm, 2048, 8).unwrap();
    }
    assert_ne!(last.as_u64() & !0xFFF, first.as_u64() & !0xFFF);
    assert_ne!(last.as_u64() & !0xFFF, a.as_u64() & !0xFFF);
    assert_ne!(last.as_u64() & !0xFFF, b.as_u64() & !0xFFF);
}
