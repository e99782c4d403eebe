//! Physical memory manager: a buddy allocator over page frames.
//!
//! Order `n` stands for a block of `2^n` pages: order 0 is one page of
//! 4 KiB, order 10 is 1024 pages, 4 MiB. Allocation takes a free block of
//! the order asked for or, where there is none, a larger one, which it
//! halves until the size fits. Release joins a block with its buddy as long
//! as the buddy is free too.

use vstd::prelude::*;
use crate::mm::bitmap::Bitmap;
use crate::mm::buddy::{
    ancestor, block_bytes, block_in_use, block_pages, buddy_of, BuddyState, coalesce, first_child,
    free_page_set, FreeSets, fs_coalesced, fs_core, fs_count, fs_insert, fs_remove, has_free,
    is_lowest, Ledger, lemma_alloc, lemma_alloc_aligned, lemma_base_aligned, lemma_ancestor_is_quotient,
    lemma_ancestor_monotone, lemma_ancestor_step, lemma_block_pages_values,
    lemma_capacity_times_pages, lemma_count_empty, lemma_count_insert, lemma_count_is_page_count,
    lemma_first_child_bounds, lemma_first_child_step, lemma_first_order_is, lemma_first_order_none,
    lemma_first_order_props, lemma_free_page_in_range, lemma_insert_core, lemma_lowest_unique,
    lemma_merge_pair, lemma_order_capacity_values, lemma_release, lemma_remove_core, lemma_split,
    order_capacity, orders, page_align_down, page_align_up, page_free, split_sets,
};

verus! {

/// Size of one page frame in bytes.
pub const PAGE_SIZE: usize = 4096;

/// Number of block orders; the largest block has `2^(MAX_ORDER - 1)` pages.
pub const MAX_ORDER: usize = 11;

/// Number of page frames the allocator can track.
pub const MAX_PAGES: usize = 1024 * 1024;

/// Regions that begin below this address are not taken.
pub const LOW_MEMORY_END: u64 = 0x100000;

/// A physical address.
#[derive(Debug, Clone, Copy, PartialEq, Eq, PartialOrd, Ord, Structural)]
pub struct PhysAddr(pub u64);

impl PhysAddr {
    /// The physical address `addr`.
    pub fn new(addr: u64) -> (r: Self)
        ensures
            r.0 == addr,
    {
        Self(addr)
    }

    /// The address as a number.
    pub fn as_u64(self) -> (r: u64)
        ensures
            r == self.0,
    {
        self.0
    }

    /// The address as a machine word; on a machine of fewer than 64 bits
    /// the upper bits are dropped.
    pub fn as_usize(self) -> (r: usize)
        ensures
            r == self.0 as usize,
    {
        #[verifier::truncate]
        (self.0 as usize)
    }

    /// Page frame number.
    pub fn pfn(self) -> (r: usize)
        ensures
            r == (self.0 as usize) / 4096,
    {
        #[verifier::truncate]
        (self.0 as usize) / PAGE_SIZE
    }
}

/// `1 << order` is the number of pages in a block of that order.
pub proof fn lemma_shift_is_block_pages(order: u64)
    requires
        order <= 10,
    ensures
        (1u64 << order) == block_pages(order as nat),
{
    lemma_block_pages_values();
    assert(order <= 10 ==> (1u64 << order) == (if order == 0 {
        1u64
    } else if order == 1 {
        2u64
    } else if order == 2 {
        4u64
    } else if order == 3 {
        8u64
    } else if order == 4 {
        16u64
    } else if order == 5 {
        32u64
    } else if order == 6 {
        64u64
    } else if order == 7 {
        128u64
    } else if order == 8 {
        256u64
    } else if order == 9 {
        512u64
    } else {
        1024u64
    })) by (bit_vector);
}

/// `idx ^ 1` is the index of the buddy of block `idx`.
pub proof fn lemma_buddy_xor(idx: usize)
    requires
        idx < 0x100000,
    ensures
        idx ^ 1 == buddy_of(idx as int),
{
    assert(idx ^ 1 == (if idx % 2 == 0 {
        (idx + 1) as usize
    } else {
        (idx - 1) as usize
    })) by (bit_vector)
        requires
            idx < 0x100000,
    ;
}

/// Rounding to a page boundary with masks is rounding by division.
pub proof fn lemma_page_align(addr: u64)
    ensures
        (addr & !4095u64) == page_align_down(addr as int),
        addr <= u64::MAX - 4095 ==> (((addr + 4095) as u64) & !4095u64) == page_align_up(addr as int),
        page_align_down(addr as int) % 4096 == 0,
        page_align_up(addr as int) % 4096 == 0,
        page_align_down(addr as int) <= addr < page_align_down(addr as int) + 4096,
        addr <= page_align_up(addr as int) < addr + 4096,
{
    assert((addr & !4095u64) == (addr / 4096) * 4096) by (bit_vector);
    if addr <= u64::MAX - 4095 {
        let up = (addr + 4095) as u64;
        assert((up & !4095u64) == (up / 4096) * 4096) by (bit_vector);
    }
}

/// `addr` rounded up to a multiple of `align`, where `align` is a power of
/// two: the lowest address from `addr` on that has none of the bits of
/// `align - 1`.
pub fn align_up(addr: u64, align: u64) -> (r: u64)
    requires
        align >= 1,
        addr + align - 1 <= u64::MAX,
    ensures
        addr <= r < addr + align,
        r & ((align - 1) as u64) == 0,
        align == 4096 ==> r == page_align_up(addr as int),
{
    let mask: u64 = align - 1;
    let sum: u64 = addr + mask;
    assert((sum & !mask) & mask == 0 && (sum & !mask) <= sum && sum - (sum & !mask) <= mask)
        by (bit_vector);
    proof {
        if align == 4096 {
            lemma_page_align(addr);
        }
    }
    sum & !mask
}

/// `addr` rounded down to a multiple of `align`, where `align` is a power
/// of two: the highest address up to `addr` that has none of the bits of
/// `align - 1`.
pub fn align_down(addr: u64, align: u64) -> (r: u64)
    requires
        align >= 1,
    ensures
        r <= addr < r + align,
        r & ((align - 1) as u64) == 0,
        align == 4096 ==> r == page_align_down(addr as int),
{
    let mask: u64 = align - 1;
    assert((addr & !mask) & mask == 0 && (addr & !mask) <= addr && addr - (addr & !mask) <= mask)
        by (bit_vector);
    proof {
        if align == 4096 {
            lemma_page_align(addr);
        }
    }
    addr & !mask
}

/// The buddy allocator: one bitmap of free blocks per order.
pub struct BuddyAllocator {
    /// `free[n]` has bit `i` set where block `i` of order `n` is free.
    free: Vec<Bitmap>,
    /// Pages ever handed to the allocator.
    total_pages: usize,
    /// Pages that are free now.
    free_pages: usize,
    /// Physical address of page 0: zero, so that every block lies at a
    /// multiple of its size.
    mem_start: u64,
}

impl BuddyAllocator {
    /// The allocator's state as mathematics.
    pub closed spec fn view(&self) -> BuddyState {
        BuddyState {
            mem_start: self.mem_start as int,
            total_pages: self.total_pages as nat,
            free_pages: self.free_pages as nat,
            free: Seq::new(self.free@.len(), |o: int| self.free@[o]@),
        }
    }

    /// The bitmaps are whole, and each one's limit lies above its set bits.
    pub closed spec fn inv(&self) -> bool {
        &&& self.free@.len() == MAX_ORDER
        &&& forall|o: int|
            0 <= o < MAX_ORDER ==> (#[trigger] self.free@[o]).well_formed() && self.free@[o].limit()
                <= MAX_PAGES
        &&& forall|o: int, i: int|
            0 <= o < MAX_ORDER && #[trigger] self.free@[o]@.contains(i) ==> i < self.free@[o].limit()
    }

    /// The allocator is in order, inside and as a model.
    pub open spec fn wf(&self) -> bool {
        self.inv() && self@.wf()
    }

    /// The number of free pages is within what the allocator can track.
    pub proof fn lemma_free_pages_bounded(&self)
        requires
            self.wf(),
        ensures
            self@.free_pages <= MAX_PAGES,
    {
        lemma_count_is_page_count(self@.free);
    }

    /// An allocator that holds nothing.
    pub fn new() -> (r: Self)
        ensures
            r.wf(),
            r@.ledger() == Ledger::empty(),
    {
        let mut free: Vec<Bitmap> = Vec::new();
        let mut i: usize = 0;
        while i < MAX_ORDER
            invariant
                i <= MAX_ORDER,
                free@.len() == i,
                forall|o: int|
                    0 <= o < i ==> (#[trigger] free@[o]).well_formed() && free@[o].limit() == 0
                        && free@[o]@ == Set::<int>::empty(),
            decreases MAX_ORDER - i,
        {
            free.push(Bitmap::new());
            i += 1;
        }
        let r = Self { free, total_pages: 0, free_pages: 0, mem_start: 0 };
        proof {
            let fs = r@.free;
            assert forall|o: int, j: int| 0 <= o < orders() implies !(#[trigger] fs[o].contains(
                j,
            )) by {
                assert(r.free@[o]@ == Set::<int>::empty());
            }
            lemma_count_empty(fs, orders() as nat);
            assert forall|p: int| !page_free(fs, p) by {
                if page_free(fs, p) {
                    let k = choose|k: nat|
                        k < orders() && #[trigger] fs[k as int].contains(ancestor(p, k));
                    assert(fs[k as int].contains(ancestor(p, k)));
                }
            }
            assert(free_page_set(fs) =~= Set::<int>::empty());
            assert forall|o: int| 0 <= o < orders() implies (#[trigger] fs[o]).finite() by {
                assert(fs[o] == Set::<int>::empty());
            }
        }
        r
    }

    /// Whether page `pfn` lies in a free block.
    pub fn page_is_free(&self, pfn: usize) -> (r: bool)
        requires
            self.wf(),
        ensures
            r == page_free(self@.free, pfn as int),
    {
        if pfn >= MAX_PAGES {
            proof {
                if page_free(self@.free, pfn as int) {
                    lemma_free_page_in_range(self@.free, pfn as int);
                }
            }
            return false;
        }
        let mut k: usize = 0;
        let mut up: usize = pfn;
        while k < MAX_ORDER
            invariant
                self.wf(),
                pfn < MAX_PAGES,
                k <= MAX_ORDER,
                up <= pfn,
                up == ancestor(pfn as int, k as nat),
                forall|q: nat|
                    q < k ==> !(#[trigger] self@.free[q as int].contains(ancestor(pfn as int, q))),
            decreases MAX_ORDER - k,
        {
            if self.free[k].get(up) {
                assert(self@.free[(k as nat) as int].contains(ancestor(pfn as int, k as nat)));
                return true;
            }
            proof {
                lemma_ancestor_step(pfn as int, k as nat);
            }
            up = up / 2;
            k += 1;
        }
        false
    }

    /// Whether the region `[start, start + size)` can be added.
    pub fn accepts_region(&self, start: u64, size: u64) -> (r: bool)
        requires
            self.wf(),
        ensures
            r == self@.ledger().accepts(start as int, size as int),
    {
        if start > u64::MAX - size || start > u64::MAX - 4095 {
            return false;
        }
        proof {
            lemma_page_align(start);
            lemma_page_align((start + size) as u64);
            lemma_count_is_page_count(self@.free);
        }
        let lo: u64 = align_up(start, PAGE_SIZE as u64);
        let hi: u64 = align_down(start + size, PAGE_SIZE as u64);
        if lo < LOW_MEMORY_END || lo >= hi {
            return false;
        }
        let base: u64 = self.mem_start;
        if base > lo || hi - base > 0x1_0000_0000 {
            return false;
        }
        let count: u64 = (hi - lo) / 4096;
        if count > (MAX_PAGES - self.total_pages) as u64 {
            return false;
        }
        let first: usize = ((lo - base) / 4096) as usize;
        let end: usize = ((hi - base) / 4096) as usize;
        let mut p: usize = first;
        assert(self@.ledger().fits(start as int, size as int));
        while p < end
            invariant
                self.wf(),
                first <= p <= end <= MAX_PAGES,
                self@.ledger().fits(start as int, size as int),
                first == (page_align_up(start as int) - self@.mem_start) / 4096,
                end == (page_align_down(start + size) - self@.mem_start) / 4096,
                forall|q: int| first <= q < p ==> !page_free(self@.free, q),
            decreases end - p,
        {
            if self.page_is_free(p) {
                assert(self@.ledger().free.contains(p as int));
                return false;
            }
            p += 1;
        }
        assert forall|q: int| first <= q < end implies !self@.ledger().free.contains(q) by {
            assert(!page_free(self@.free, q));
        }
        true
    }

    /// Adds the whole pages of `[start, start + size)` as free pages, and
    /// joins what can be joined into larger blocks. Which pages are free
    /// says which blocks are: see `lemma_pages_fix_blocks`.
    pub fn add_region(&mut self, start: u64, size: u64)
        requires
            old(self).wf(),
            old(self)@.ledger().accepts(start as int, size as int),
        ensures
            final(self).wf(),
            final(self)@.ledger() == old(self)@.ledger().add_region(start as int, size as int),
    {
        proof {
            lemma_page_align(start);
            lemma_page_align((start + size) as u64);
            lemma_count_is_page_count(self@.free);
        }
        let lo: u64 = align_up(start, PAGE_SIZE as u64);
        let hi: u64 = align_down(start + size, PAGE_SIZE as u64);
        proof {
            lemma_base_aligned(self.mem_start as int, 0);
        }
        let ghost fs0 = self@.free;
        let ghost first = (lo - self.mem_start) / 4096;
        let ghost end = (hi - self.mem_start) / 4096;
        assert forall|p: int| first <= p < end implies !page_free(fs0, p) by {
            assert(!old(self)@.ledger().free.contains(p));
        }
        let mut addr: u64 = lo;
        while addr < hi
            invariant
                self.inv(),
                fs_core(self@.free),
                self@.free_pages == fs_count(self@.free, orders() as nat),
                self.mem_start == old(self).mem_start,
                self.mem_start <= lo <= addr <= hi,
                self.mem_start % 0x40_0000 == 0,
                self.mem_start % 4096 == 0,
                addr % 4096 == 0,
                hi % 4096 == 0,
                lo % 4096 == 0,
                hi - self.mem_start <= 0x1_0000_0000,
                first == (lo - self.mem_start) / 4096,
                end == (hi - self.mem_start) / 4096,
                self.total_pages == old(self).total_pages + (addr - lo) / 4096,
                self.free_pages == old(self).free_pages + (addr - lo) / 4096,
                old(self).total_pages + (hi - lo) / 4096 <= MAX_PAGES,
                forall|p: int|
                    0 <= p ==> (#[trigger] page_free(self@.free, p) == (page_free(fs0, p) || first
                        <= p < (addr - self.mem_start) / 4096)),
                forall|p: int| first <= p < end ==> !page_free(fs0, p),
            decreases hi - addr,
        {
            let pfn: usize = ((addr - self.mem_start) / 4096) as usize;
            let ghost before = self@.free;
            proof {
                lemma_order_capacity_values();
                assert(block_in_use(before, 0, pfn as int)) by {
                    assert forall|p: int| 0 <= p && #[trigger] ancestor(p, 0) == pfn implies !page_free(
                        before,
                        p,
                    ) by {}
                }
                lemma_insert_core(before, 0, pfn as int);
                lemma_count_insert(before, 0, pfn as int);
                assert(block_pages(0) == 1);
                lemma_count_is_page_count(fs_insert(before, 0, pfn as int));
            }
            self.free[0].set(pfn, true);
            self.free[0].raise_limit(pfn + 1);
            self.free_pages += 1;
            self.total_pages += 1;
            addr += 4096;
            assert(self@.free =~= fs_insert(before, 0, pfn as int));
            assert forall|p: int| 0 <= p implies (#[trigger] page_free(self@.free, p) == (page_free(
                fs0,
                p,
            ) || first <= p < (addr - self.mem_start) / 4096)) by {
                assert(ancestor(p, 0) == p);
            }
        }
        self.merge_all();
        proof {
            let l0 = old(self)@.ledger();
            let want = l0.add_region(start as int, size as int);
            assert(self@.ledger().free =~= want.free) by {
                assert forall|p: int| self@.ledger().free.contains(p) == want.free.contains(p) by {
                    if 0 <= p && page_free(self@.free, p) {
                        lemma_free_page_in_range(self@.free, p);
                    }
                }
            }
        }
    }

    /// Joins every pair of free buddies into their parent, from the lowest
    /// order up.
    fn merge_all(&mut self)
        requires
            old(self).inv(),
            fs_core(old(self)@.free),
            old(self)@.free_pages == fs_count(old(self)@.free, orders() as nat),
            old(self)@.total_pages <= MAX_PAGES,
            old(self)@.mem_start % 0x40_0000 == 0,
            old(self)@.mem_start + 0x1_0000_0000 <= 0x1_0000_0000_0000_0000,
        ensures
            final(self).wf(),
            final(self)@.mem_start == old(self)@.mem_start,
            final(self)@.total_pages == old(self)@.total_pages,
            final(self)@.free_pages == old(self)@.free_pages,
            forall|p: int|
                0 <= p ==> (#[trigger] page_free(final(self)@.free, p) == page_free(
                    old(self)@.free,
                    p,
                )),
    {
        let mut order: usize = 0;
        while order < MAX_ORDER - 1
            invariant
                order <= MAX_ORDER - 1,
                self.inv(),
                fs_core(self@.free),
                self.total_pages == old(self).total_pages,
                self.free_pages == old(self).free_pages,
                self.mem_start == old(self).mem_start,
                fs_count(self@.free, orders() as nat) == fs_count(old(self)@.free, orders() as nat),
                forall|p: int|
                    0 <= p ==> (#[trigger] page_free(self@.free, p) == page_free(old(self)@.free, p)),
                forall|o: int, i: int|
                    0 <= o < order && #[trigger] self@.free[o].contains(i) ==> !self@.free[o].contains(
                        buddy_of(i),
                    ),
            decreases MAX_ORDER - 1 - order,
        {
            let len: usize = self.free[order].len();
            let mut i: usize = 0;
            while i < len && i + 1 < len
                invariant
                    order < MAX_ORDER - 1,
                    i % 2 == 0,
                    len == self.free@[order as int].limit(),
                    len <= MAX_PAGES,
                    self.inv(),
                    fs_core(self@.free),
                    self.total_pages == old(self).total_pages,
                    self.free_pages == old(self).free_pages,
                    self.mem_start == old(self).mem_start,
                    fs_count(self@.free, orders() as nat) == fs_count(
                        old(self)@.free,
                        orders() as nat,
                    ),
                    forall|p: int|
                        0 <= p ==> (#[trigger] page_free(self@.free, p) == page_free(
                            old(self)@.free,
                            p,
                        )),
                    forall|o: int, j: int|
                        0 <= o < order && #[trigger] self@.free[o].contains(j)
                            ==> !self@.free[o].contains(buddy_of(j)),
                    forall|j: int|
                        0 <= j < i && #[trigger] self@.free[order as int].contains(j)
                            ==> !self@.free[order as int].contains(buddy_of(j)),
                decreases len - i,
            {
                if self.free[order].get(i) && self.free[order].get(i + 1) {
                    let ghost before = self@.free;
                    let parent: usize = i / 2;
                    proof {
                        assert(i as int == 2 * (parent as int));
                        lemma_merge_pair(before, order as int, parent as int);
                        lemma_order_capacity_values();
                    }
                    self.free[order].set(i, false);
                    self.free[order].set(i + 1, false);
                    self.free[order + 1].set(parent, true);
                    self.free[order + 1].raise_limit(parent + 1);
                    assert(self@.free =~= fs_insert(
                        fs_remove(fs_remove(before, order as int, 2 * parent), order as int, 2 * parent + 1),
                        order + 1,
                        parent as int,
                    ));
                }
                i += 2;
            }
            assert forall|j: int| #[trigger]
                self@.free[order as int].contains(j) implies !self@.free[order as int].contains(
                buddy_of(j),
            ) by {
                assert(self.free@[order as int]@.contains(j));
                if self.free@[order as int]@.contains(buddy_of(j)) {
                    assert(buddy_of(j) < len);
                    assert(j < len);
                }
            }
            order += 1;
        }
        proof {
            lemma_count_is_page_count(self@.free);
        }
    }

    /// Gives back the block of `2^order` pages at `addr`, and joins it with
    /// its buddy as long as the buddy is free and a larger order exists.
    /// The block has to be in use: given back at the order at which it was
    /// taken, and once.
    pub fn free(&mut self, addr: PhysAddr, order: usize)
        requires
            old(self).wf(),
            old(self)@.can_release(addr.0 as int, order as int),
        ensures
            final(self).wf(),
            final(self)@ == old(self)@.release(addr.0 as int, order as int),
    {
        let ghost fs0 = self@.free;
        let ghost order0 = order as int;
        let ghost idx0 = self@.block_index(addr.0 as int, order as nat);
        proof {
            lemma_release(self@, addr.0 as int, order as int);
            lemma_count_is_page_count(self@.release(addr.0 as int, order as int).free);
            lemma_shift_is_block_pages(order as u64);
            lemma_block_pages_values();
            lemma_order_capacity_values();
            lemma_ancestor_is_quotient(self@.page_of(addr.0 as int), order as nat);
            lemma_ancestor_monotone(0, self@.page_of(addr.0 as int), order as nat);
        }
        let pages_offset: u64 = (addr.0 - self.mem_start) / 4096;
        let pages: u64 = 1u64 << (order as u64);
        let mut idx: usize = (pages_offset / pages) as usize;
        let mut order: usize = order;
        self.free[order].set(idx, true);
        self.free[order].raise_limit(idx + 1);
        self.free_pages += pages as usize;
        let ghost mut rest: FreeSets = fs0;
        let mut joining: bool = true;
        proof {
            lemma_insert_core(fs0, order0, idx0);
            assert(self@.free =~= fs_insert(rest, order as int, idx as int));
        }
        while joining && order < MAX_ORDER - 1
            invariant
                order < MAX_ORDER,
                self.inv(),
                fs_core(rest),
                0 <= idx < order_capacity(order as nat),
                self@.free == fs_insert(rest, order as int, idx as int),
                !rest[order as int].contains(idx as int),
                coalesce(fs0, order0, idx0) == coalesce(rest, order as int, idx as int),
                !joining ==> !rest[order as int].contains(buddy_of(idx as int)),
                self.total_pages == old(self).total_pages,
                self.free_pages == old(self).free_pages + block_pages(order0 as nat),
                self.mem_start == old(self).mem_start,
            decreases MAX_ORDER - order + (if joining { 1int } else { 0int }),
        {
            proof {
                lemma_order_capacity_values();
                lemma_buddy_xor(idx);
            }
            let buddy: usize = idx ^ 1;
            if buddy < self.free[order].len() && self.free[order].get(buddy) {
                proof {
                    assert(self.free@[order as int]@.contains(buddy as int));
                    assert(self@.free[order as int].contains(buddy as int));
                    assert(rest[order as int].contains(buddy as int));
                    lemma_remove_core(rest, order as int, buddy as int);
                    assert(ancestor(buddy as int, 1) == ancestor(buddy as int / 2, 0));
                    assert(!rest[order + 1].contains(ancestor(buddy as int, 1)));
                }
                let ghost before = self@.free;
                self.free[order].set(idx, false);
                self.free[order].set(buddy, false);
                proof {
                    assert(before[order as int] == rest[order as int].insert(idx as int));
                    assert(rest[order as int].insert(idx as int).remove(idx as int).remove(
                        buddy as int,
                    ) =~= rest[order as int].remove(buddy as int));
                    rest = fs_remove(rest, order as int, buddy as int);
                    assert(self@.free.len() == rest.len());
                    assert forall|o2: int| 0 <= o2 < orders() implies self@.free[o2] =~= rest[o2] by {
                        if o2 == order {
                            assert(self.free@[o2]@ == before[o2].remove(idx as int).remove(
                                buddy as int,
                            ));
                        } else {
                            assert(self@.free[o2] == before[o2]);
                        }
                    }
                    assert(self@.free =~~= rest);
                }
                idx = idx / 2;
                order += 1;
                self.free[order].set(idx, true);
                self.free[order].raise_limit(idx + 1);
                assert(self@.free =~~= fs_insert(rest, order as int, idx as int));
            } else {
                joining = false;
                assert(!rest[order as int].contains(buddy as int)) by {
                    if rest[order as int].contains(buddy as int) {
                        assert(self@.free[order as int].contains(buddy as int));
                        assert(self.free@[order as int]@.contains(buddy as int));
                    }
                }
            }
        }
        assert(self@.free =~= coalesce(fs0, order0, idx0));
    }

    /// Takes `2^order` pages: the base of the block, or `None` where no
    /// block of that order or above is free.
    pub fn allocate(&mut self, order: usize) -> (r: Option<PhysAddr>)
        requires
            old(self).wf(),
        ensures
            final(self).wf(),
            match r {
                Some(a) => old(self)@.allocate(order as int) == Some((a.0 as int, final(self)@)),
                None => old(self)@.allocate(order as int).is_none() && final(self)@ == old(self)@,
            },
    {
        let ghost fs = self@.free;
        let mut from: usize = order;
        let mut hit: Option<usize> = None;
        while from < MAX_ORDER && hit.is_none()
            invariant
                self.wf(),
                *self == *old(self),
                order <= from,
                forall|q: int| order <= q < from ==> !has_free(fs, q),
                fs == self@.free,
                match hit {
                    Some(i) => from < MAX_ORDER && is_lowest(fs[from as int], i as int),
                    None => true,
                },
            decreases MAX_ORDER - from + (if hit.is_none() { 1int } else { 0int }),
        {
            hit = self.free[from].find_free();
            if hit.is_none() {
                assert(!has_free(fs, from as int));
                from += 1;
            } else {
                assert(is_lowest(fs[from as int], hit.unwrap() as int));
            }
        }
        let idx: usize = match hit {
            Some(i) => i,
            None => {
                proof {
                    lemma_first_order_none(fs, order as int);
                }
                return None;
            },
        };
        proof {
            lemma_lowest_unique(fs[from as int], idx as int);
            assert(has_free(fs, from as int));
            lemma_first_order_is(fs, order as int, from as int);
            lemma_alloc(old(self)@, order as int);
            lemma_split(fs, from as int, idx as int, from as int);
            lemma_order_capacity_values();
        }
        self.free[from].set(idx, false);
        let mut cur_order: usize = from;
        let mut cur_idx: usize = idx;
        assert(self@.free =~= split_sets(fs, from as int, idx as int, cur_order as int));
        while cur_order > order
            invariant
                order <= cur_order <= from < MAX_ORDER,
                self.inv(),
                fs_core(fs),
                fs_coalesced(fs),
                fs[from as int].contains(idx as int),
                self@.free == split_sets(fs, from as int, idx as int, cur_order as int),
                cur_idx == first_child(idx as int, (from - cur_order) as nat),
                self.total_pages == old(self).total_pages,
                self.free_pages == old(self).free_pages,
                self.mem_start == old(self).mem_start,
            decreases cur_order,
        {
            proof {
                lemma_first_child_bounds(idx as int, from as nat, (from - cur_order + 1) as nat);
                lemma_first_child_step(idx as int, (from - cur_order) as nat);
                lemma_order_capacity_values();
            }
            let ghost before = self@.free;
            cur_order -= 1;
            let left: usize = cur_idx * 2;
            let right: usize = left + 1;
            assert(left == first_child(idx as int, (from - cur_order) as nat));
            self.free[cur_order].set(right, true);
            self.free[cur_order].raise_limit(right + 1);
            cur_idx = left;
            assert(self@.free =~= fs_insert(before, cur_order as int, right as int));
            assert(self@.free =~= split_sets(fs, from as int, idx as int, cur_order as int));
        }
        proof {
            lemma_shift_is_block_pages(order as u64);
            lemma_split(fs, from as int, idx as int, order as int);
            lemma_capacity_times_pages(order as nat);
            lemma_block_pages_values();
            let b = block_pages(order as nat) as int;
            let cap = order_capacity(order as nat);
            assert((cur_idx + 1) * b <= cap * b) by (nonlinear_arith)
                requires
                    cur_idx + 1 <= cap,
                    b >= 0,
            ;
            assert((cur_idx + 1) * b == cur_idx * b + b) by (nonlinear_arith);
            assert(0 <= cur_idx * b) by (nonlinear_arith)
                requires
                    0 <= b,
            ;
        }
        let pages: u64 = 1u64 << (order as u64);
        let offset: u64 = (cur_idx as u64) * pages;
        let phys: u64 = self.mem_start + offset * 4096;
        self.free_pages -= pages as usize;
        Some(PhysAddr::new(phys))
    }
}

/// Builds the allocator from the boot memory map: each usable region, a
/// base and a length, is added in turn; one that cannot be added is dropped.
pub fn init(regions: &[(u64, u64)]) -> (pmm: BuddyAllocator)
    ensures
        pmm.wf(),
        pmm@.ledger() == Ledger::empty().add_regions(regions@),
{
    let mut pmm = BuddyAllocator::new();
    let mut i: usize = 0;
    assert(regions@.take(0).len() == 0);
    while i < regions.len()
        invariant
            pmm.wf(),
            i <= regions.len(),
            pmm@.ledger() == Ledger::empty().add_regions(regions@.take(i as int)),
        decreases regions.len() - i,
    {
        let (base, length) = regions[i];
        if pmm.accepts_region(base, length) {
            pmm.add_region(base, length);
        }
        i += 1;
        proof {
            let now = regions@.take(i as int);
            assert(now.drop_last() =~= regions@.take(i - 1));
            assert(now.last() == regions@[i - 1]);
        }
    }
    assert(regions@.take(regions.len() as int) =~= regions@);
    pmm
}

/// Allocates one page.
pub fn alloc_page(pmm: &mut BuddyAllocator) -> (r: Option<PhysAddr>)
    requires
        old(pmm).wf(),
    ensures
        final(pmm).wf(),
        match r {
            Some(a) => old(pmm)@.allocate(0) == Some((a.0 as int, final(pmm)@)),
            None => old(pmm)@.allocate(0).is_none() && final(pmm)@ == old(pmm)@,
        },
{
    alloc_pages(pmm, 0)
}

/// Allocates `2^order` pages. The block lies at a multiple of its size.
pub fn alloc_pages(pmm: &mut BuddyAllocator, order: usize) -> (r: Option<PhysAddr>)
    requires
        old(pmm).wf(),
    ensures
        final(pmm).wf(),
        match r {
            Some(a) => old(pmm)@.allocate(order as int) == Some((a.0 as int, final(pmm)@)) && order
                < MAX_ORDER && a.0 as int % block_bytes(order as nat) == 0,
            None => old(pmm)@.allocate(order as int).is_none() && final(pmm)@ == old(pmm)@,
        },
{
    let r = pmm.allocate(order);
    proof {
        if r.is_some() {
            lemma_first_order_props(old(pmm)@.free, order as int);
            lemma_alloc_aligned(old(pmm)@, order as int);
        }
    }
    r
}

/// Releases one page, which has to be in use.
pub fn free_page(pmm: &mut BuddyAllocator, addr: PhysAddr)
    requires
        old(pmm).wf(),
        old(pmm)@.can_release(addr.0 as int, 0),
    ensures
        final(pmm).wf(),
        final(pmm)@ == old(pmm)@.release(addr.0 as int, 0),
{
    free_pages(pmm, addr, 0);
}

/// Releases the `2^order` pages at `addr`, which have to be in use as one
/// block of that order.
pub fn free_pages(pmm: &mut BuddyAllocator, addr: PhysAddr, order: usize)
    requires
        old(pmm).wf(),
        old(pmm)@.can_release(addr.0 as int, order as int),
    ensures
        final(pmm).wf(),
        final(pmm)@ == old(pmm)@.release(addr.0 as int, order as int),
{
    pmm.free(addr, order);
}

/// Bytes that are free.
pub fn free_memory(pmm: &BuddyAllocator) -> (r: u64)
    requires
        pmm.wf(),
    ensures
        r == pmm@.free_pages * 4096,
{
    proof {
        pmm.lemma_free_pages_bounded();
    }
    pmm.free_pages as u64 * PAGE_SIZE as u64
}

/// Bytes ever handed to the allocator.
pub fn total_memory(pmm: &BuddyAllocator) -> (r: u64)
    requires
        pmm.wf(),
    ensures
        r == pmm@.total_pages * 4096,
{
    pmm.total_pages as u64 * PAGE_SIZE as u64
}

} // verus!
