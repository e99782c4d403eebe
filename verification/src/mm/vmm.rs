//! Virtual memory manager: the address spaces of tasks.
//!
//! Every task has an address space of its own. The upper half, from
//! `0xFFFF_8000_0000_0000` up, is the kernel's and the same in all of them;
//! the lower half is the task's.

use vstd::prelude::*;
use crate::mm::buddy::{
    BuddyState, lemma_alloc, lemma_alloc_page_frame, lemma_alloc_succeeds, lemma_release_page_frame,
    lemma_take_pages, lemma_take_pages_add, page_free,
};
use crate::mm::memory::PhysMemory;
use crate::mm::page_table::{
    changed_within, entry_at, frame_base, is_table, KERNEL_RW, leaf, lemma_changed_within_trans,
    lemma_entry_addr, lemma_flag_constants, lemma_frame_base, lemma_leaf_same_page,
    lemma_near_prefix, lemma_offset_page, lemma_page_of, lemma_pages_apart, lemma_pte_new,
    lemma_shared_space, lemma_shared_walk, lemma_tables_same, map_page, mapped, missing_tables,
    page_at, PageFlags, PRESENT, pte_new, pte_present, read_entry, root_shares, same_leaves,
    same_page, space_ok, table_at, tables_wf, translate_addr, translation, unmap_page, unmapped,
    upper_half, WRITABLE,
};
use crate::mm::page_table::{link_entry, same_prefix, tables_grew, walk_create, wrote, TABLE_FLAGS};
use crate::mm::pmm::{alloc_page, BuddyAllocator, free_page, PAGE_SIZE, PhysAddr};

verus! {

/// Where the direct map of physical memory begins.
pub const PHYSICAL_MAP_OFFSET: u64 = 0xFFFF_8000_0000_0000;

/// The physical addresses that the direct map reaches lie below this.
pub const DIRECT_MAP_SIZE: u64 = 0x8000_0000_0000;

/// Number of regions an address space can hold.
pub const MAX_VMAS: usize = 64;

/// A virtual address.
#[derive(Debug, Clone, Copy, PartialEq, Eq, PartialOrd, Ord, Structural)]
pub struct VirtAddr(pub u64);

impl VirtAddr {
    /// The virtual address `addr`.
    pub fn new(addr: u64) -> (r: Self)
        ensures
            r.0 == addr,
    {
        Self(addr)
    }

    /// The address as a number.
    pub fn as_u64(self) -> (r: u64)
        ensures
            r == self.0,
    {
        self.0
    }

    /// The address as a machine word; on a machine of fewer than 64 bits
    /// the upper bits are dropped.
    pub fn as_usize(self) -> (r: usize)
        ensures
            r == self.0 as usize,
    {
        #[verifier::truncate]
        (self.0 as usize)
    }
}

/// The virtual address at which the direct map shows `phys`.
pub fn phys_to_virt(phys: PhysAddr) -> (r: VirtAddr)
    requires
        phys.0 < DIRECT_MAP_SIZE,
    ensures
        r.0 == direct_map_virt(phys.0),
        r.0 == phys.0 + PHYSICAL_MAP_OFFSET,
{
    VirtAddr::new(phys.as_u64() + PHYSICAL_MAP_OFFSET)
}

/// The physical address that the direct map shows at `virt`.
pub fn virt_to_phys(virt: VirtAddr) -> (r: PhysAddr)
    requires
        virt.0 >= PHYSICAL_MAP_OFFSET,
    ensures
        r.0 == direct_map_phys(virt.0),
        r.0 == virt.0 - PHYSICAL_MAP_OFFSET,
        r.0 < DIRECT_MAP_SIZE,
{
    PhysAddr::new(virt.as_u64() - PHYSICAL_MAP_OFFSET)
}

/// What backs a region.
#[derive(Debug, Clone, Copy, PartialEq, Eq, Structural)]
pub enum VmaKind {
    /// Memory of the task's own, such as stack and heap; pages come when
    /// they are first touched.
    Anonymous,
    /// Memory shared with others, beginning at the given physical address.
    Shared(PhysAddr),
    /// A region of the kernel.
    Kernel,
}

/// One region of virtual memory: `[start, end)` with one set of flags.
#[derive(Debug, Clone, Copy, PartialEq, Eq, Structural)]
pub struct Vma {
    pub start: VirtAddr,
    pub end: VirtAddr,
    pub flags: PageFlags,
    pub kind: VmaKind,
}

impl Vma {
    /// Whether `addr` lies in the region.
    pub open spec fn spec_contains(&self, addr: u64) -> bool {
        self.start.0 <= addr < self.end.0
    }

    /// Number of bytes in the region.
    pub fn size(&self) -> (r: u64)
        requires
            self.start.0 <= self.end.0,
        ensures
            r == self.end.0 - self.start.0,
    {
        self.end.as_u64() - self.start.as_u64()
    }

    /// Whether `addr` lies in the region.
    pub fn contains(&self, addr: VirtAddr) -> (r: bool)
        ensures
            r == self.spec_contains(addr.0),
    {
        addr.as_u64() >= self.start.as_u64() && addr.as_u64() < self.end.as_u64()
    }
}

/// Whether `v` lies in one of the pages that begin at `start`, `start +
/// 4096` and so on, below `start + size`.
pub open spec fn in_pages(v: u64, start: u64, size: u64) -> bool {
    exists|off: u64| off % 4096 == 0 && off < size && same_page(v, #[trigger] page_at(start, off))
}

/// Whether `after` translates as `before` does, but that the pages in the
/// first `done` bytes from `start` on are mapped, with `flags`, to the
/// frames from `phys` on.
pub open spec fn pages_mapped(
    before: &PhysMemory,
    after: &PhysMemory,
    root: int,
    start: u64,
    phys: u64,
    flags: u64,
    done: u64,
) -> bool {
    &&& forall|v: u64|
        !in_pages(v, start, done) ==> #[trigger] leaf(after, root, v) == leaf(before, root, v)
    &&& forall|off: u64|
        off % 4096 == 0 && off < done ==> #[trigger] leaf(after, root, page_at(start, off)) == (
        if pte_present(pte_new((phys + off) as u64, flags)) {
            Some(pte_new((phys + off) as u64, flags))
        } else {
            None
        })
}

/// The `k`-th page from `start` on.
pub open spec fn nth_page(start: u64, k: nat) -> u64 {
    (start + 4096 * k) as u64
}

/// Number of pages that `size` bytes take.
pub open spec fn pages_of(size: u64) -> nat {
    ((size + 4095) / 4096) as nat
}

/// Whether the walk for `w` to depth `depth` goes the way of one of the
/// first `n` pages from `start` on.
pub open spec fn on_range_walk(start: u64, n: nat, depth: nat, w: u64) -> bool {
    exists|j: nat| j < n && same_prefix(depth, w, #[trigger] nth_page(start, j))
}

/// Whether mapping the `k`-th page from `start` on has to make the table at
/// `depth` on its walk: the table is not there, and the walk of no earlier
/// page of the range goes through it.
pub open spec fn table_is_new(mem: &PhysMemory, root: int, start: u64, k: nat, depth: nat) -> bool {
    table_at(mem, root, depth, nth_page(start, k)).is_none() && !on_range_walk(
        start,
        k,
        depth,
        nth_page(start, k),
    )
}

/// How many tables mapping the `k`-th page from `start` on has to make,
/// after the pages before it.
pub open spec fn new_tables(mem: &PhysMemory, root: int, start: u64, k: nat) -> nat {
    (if table_is_new(mem, root, start, k, 1) {
        1nat
    } else {
        0nat
    }) + (if table_is_new(mem, root, start, k, 2) {
        1nat
    } else {
        0nat
    }) + (if table_is_new(mem, root, start, k, 3) {
        1nat
    } else {
        0nat
    })
}

/// How many tables mapping the first `n` pages from `start` on has to
/// make.
pub open spec fn range_tables(mem: &PhysMemory, root: int, start: u64, n: nat) -> nat
    decreases n,
{
    if n == 0 {
        0
    } else {
        range_tables(mem, root, start, (n - 1) as nat) + new_tables(
            mem,
            root,
            start,
            (n - 1) as nat,
        )
    }
}

/// Whether the walks that reach a table in `after` are those that reached
/// one in `before` and those that go the way of one of the first `n` pages
/// from `start` on.
pub open spec fn range_grew(
    before: &PhysMemory,
    after: &PhysMemory,
    root: int,
    start: u64,
    n: nat,
) -> bool {
    forall|dd: nat, w: u64|
        1 <= dd <= 3 ==> ((#[trigger] table_at(after, root, dd, w)).is_some() <==> (table_at(
            before,
            root,
            dd,
            w,
        ).is_some() || on_range_walk(start, n, dd, w)))
}

/// Before any page is mapped the tables are what they are.
pub proof fn lemma_range_start(mem: &PhysMemory, root: int, start: u64)
    ensures
        range_grew(mem, mem, root, start, 0),
        range_tables(mem, root, start, 0) == 0,
{
}

/// More pages take no fewer tables.
pub proof fn lemma_range_tables_monotone(mem: &PhysMemory, root: int, start: u64, a: nat, b: nat)
    requires
        a <= b,
    ensures
        range_tables(mem, root, start, a) <= range_tables(mem, root, start, b),
    decreases b,
{
    if a < b {
        lemma_range_tables_monotone(mem, root, start, a, (b - 1) as nat);
    }
}

/// The tables that the next page of a range lacks are those that mapping
/// it has to make.
pub proof fn lemma_missing_is_new(
    m0: &PhysMemory,
    m: &PhysMemory,
    root: int,
    start: u64,
    n: nat,
)
    requires
        range_grew(m0, m, root, start, n),
    ensures
        missing_tables(m, root, nth_page(start, n)) == new_tables(m0, root, start, n),
        range_tables(m0, root, start, n + 1) == range_tables(m0, root, start, n) + new_tables(
            m0,
            root,
            start,
            n,
        ),
{
    let v = nth_page(start, n);
    crate::mm::page_table::lemma_missing_is_count(m, root, v);
    reveal_with_fuel(crate::mm::page_table::missing_upto, 4);
    assert(table_at(m, root, 1, v).is_none() == table_is_new(m0, root, start, n, 1));
    assert(table_at(m, root, 2, v).is_none() == table_is_new(m0, root, start, n, 2));
    assert(table_at(m, root, 3, v).is_none() == table_is_new(m0, root, start, n, 3));
}

/// Mapping the next page of a range adds the walks that go its way.
pub proof fn lemma_range_step(
    m0: &PhysMemory,
    m1: &PhysMemory,
    m2: &PhysMemory,
    root: int,
    start: u64,
    n: nat,
)
    requires
        range_grew(m0, m1, root, start, n),
        tables_grew(m1, m2, root, nth_page(start, n), 3),
        missing_tables(m2, root, nth_page(start, n)) == 0,
    ensures
        range_grew(m0, m2, root, start, n + 1),
{
    let v = nth_page(start, n);
    assert forall|dd: nat, w: u64| 1 <= dd <= 3 implies ((#[trigger] table_at(
        m2,
        root,
        dd,
        w,
    )).is_some() <==> (table_at(m0, root, dd, w).is_some() || on_range_walk(start, n + 1, dd, w))) by {
        assert(table_at(m2, root, dd, v).is_some());
        let was = table_at(m1, root, dd, w).is_some();
        assert(was == (table_at(m0, root, dd, w).is_some() || on_range_walk(start, n, dd, w)));
        if on_range_walk(start, n, dd, w) {
            let j = choose|j: nat| j < n && same_prefix(dd, w, #[trigger] nth_page(start, j));
            assert(j < n + 1 && same_prefix(dd, w, nth_page(start, j)));
        }
        if same_prefix(dd, w, v) {
            assert(n < n + 1 && same_prefix(dd, w, nth_page(start, n)));
        }
        if on_range_walk(start, n + 1, dd, w) {
            let j = choose|j: nat| j < n + 1 && same_prefix(dd, w, #[trigger] nth_page(start, j));
            if j < n {
                assert(on_range_walk(start, n, dd, w));
            }
        }
    }
}

/// The bytes of the whole pages that `size` bytes take.
pub open spec fn whole_pages(size: u64) -> u64 {
    (4096 * pages_of(size)) as u64
}

/// Translations that stay over two changes stay over both.
pub proof fn lemma_same_leaves_trans(m0: &PhysMemory, m1: &PhysMemory, m2: &PhysMemory, root: int)
    requires
        same_leaves(m0, m1, root),
        same_leaves(m1, m2, root),
    ensures
        same_leaves(m0, m2, root),
{
    assert forall|v: u64| #[trigger] leaf(m2, root, v) == leaf(m0, root, v) by {
        assert(leaf(m2, root, v) == leaf(m1, root, v));
        assert(leaf(m1, root, v) == leaf(m0, root, v));
    }
}

/// Once the tables of a range are made, no page of the range lacks one.
pub proof fn lemma_range_complete(
    m0: &PhysMemory,
    m: &PhysMemory,
    root: int,
    start: u64,
    total: nat,
)
    requires
        range_grew(m0, m, root, start, total),
    ensures
        forall|k: nat| k < total ==> missing_tables(m, root, #[trigger] nth_page(start, k)) == 0,
{
    assert forall|k: nat| k < total implies missing_tables(m, root, #[trigger] nth_page(start, k))
        == 0 by {
        let v = nth_page(start, k);
        assert forall|dd: nat| 1 <= dd <= 3 implies table_at(m, root, dd, v).is_some() by {
            assert(k < total && same_prefix(dd, v, nth_page(start, k)));
            assert(on_range_walk(start, total, dd, v));
        }
        assert(table_at(m, root, 1, v).is_some());
        assert(table_at(m, root, 2, v).is_some());
        assert(table_at(m, root, 3, v).is_some());
    }
}

/// Mapping a page that lacks no table makes no table.
pub proof fn lemma_map_keeps_tables(m1: &PhysMemory, m2: &PhysMemory, root: int, v: u64)
    requires
        tables_grew(m1, m2, root, v, 3),
        missing_tables(m1, root, v) == 0,
    ensures
        forall|dd: nat, w: u64|
            dd <= 3 ==> (#[trigger] table_at(m2, root, dd, w)).is_some() == table_at(
                m1,
                root,
                dd,
                w,
            ).is_some(),
{
    assert forall|dd: nat, w: u64| dd <= 3 implies (#[trigger] table_at(m2, root, dd, w)).is_some()
        == table_at(m1, root, dd, w).is_some() by {
        if table_at(m1, root, dd, w).is_none() && same_prefix(dd, w, v) {
            crate::mm::page_table::lemma_prefix_walk(m1, root, dd, w, v);
            assert(table_at(m1, root, 0, v) == Some(root));
        }
    }
}

/// A change within the tables, in a memory that has the tables that
/// another has, is a change within the tables of that one.
pub proof fn lemma_changed_within_same(
    mid: &PhysMemory,
    m1: &PhysMemory,
    m2: &PhysMemory,
    root: int,
    s: BuddyState,
)
    requires
        changed_within(mid, m1, root, s),
        changed_within(m1, m2, root, s),
        forall|x: int| #[trigger] is_table(m1, root, x) ==> is_table(mid, root, x) || s.frame_is_free(x),
    ensures
        changed_within(mid, m2, root, s),
{
    lemma_changed_within_trans(mid, m1, m2, root, s, s);
}

/// Changes within free frames and tables, then changes within what was
/// free or a table after them, are changes within what was free or a table
/// at the start.
pub proof fn lemma_changed_within_chain(
    m0: &PhysMemory,
    mid: &PhysMemory,
    m2: &PhysMemory,
    root: int,
    s0: BuddyState,
    s1: BuddyState,
)
    requires
        changed_within(m0, mid, root, s0),
        changed_within(mid, m2, root, s1),
        forall|x: int| #[trigger] s1.frame_is_free(x) ==> s0.frame_is_free(x),
        forall|x: int| #[trigger] is_table(mid, root, x) ==> is_table(m0, root, x) || s0.frame_is_free(x),
    ensures
        changed_within(m0, m2, root, s0),
{
    lemma_changed_within_trans(m0, mid, m2, root, s0, s1);
}

/// Walks that reach tables in one memory as in another have grown as those
/// have.
pub proof fn lemma_range_same_tables(
    m0: &PhysMemory,
    mid: &PhysMemory,
    m2: &PhysMemory,
    root: int,
    start: u64,
    n: nat,
)
    requires
        range_grew(m0, mid, root, start, n),
        forall|dd: nat, w: u64|
            dd <= 3 ==> (#[trigger] table_at(m2, root, dd, w)).is_some() == table_at(
                mid,
                root,
                dd,
                w,
            ).is_some(),
    ensures
        range_grew(m0, m2, root, start, n),
{
    assert forall|dd: nat, w: u64| 1 <= dd <= 3 implies ((#[trigger] table_at(
        m2,
        root,
        dd,
        w,
    )).is_some() <==> (table_at(m0, root, dd, w).is_some() || on_range_walk(start, n, dd, w))) by {
        assert(table_at(m2, root, dd, w).is_some() == table_at(mid, root, dd, w).is_some());
    }
}

/// The first of `regions` that contains `addr`.
pub open spec fn first_containing(regions: Seq<Vma>, addr: u64) -> Option<Vma>
    decreases regions.len(),
{
    if regions.len() == 0 {
        None
    } else if regions[0].spec_contains(addr) {
        Some(regions[0])
    } else {
        first_containing(regions.drop_first(), addr)
    }
}

/// The address space of one task: the root of its page tables and its
/// regions.
pub struct AddressSpace {
    /// Physical address of the root table.
    pub pml4: PhysAddr,
    /// The regions, in the order in which they were added.
    vmas: Vec<Vma>,
}

impl AddressSpace {
    /// The regions, in the order in which they were added.
    pub closed spec fn regions(&self) -> Seq<Vma> {
        self.vmas@
    }

    /// Physical address of the root table.
    pub closed spec fn root(&self) -> int {
        self.pml4.0 as int
    }

    /// Physical address of the root table.
    pub fn root_table(&self) -> (r: PhysAddr)
        ensures
            r.0 == self.root(),
    {
        self.pml4
    }

    /// The space's tables form a tree in `mem`, none of them is free in
    /// `pmm`, every frame that is free in `pmm` lies in `mem`, and the
    /// regions are no more than the space can hold.
    pub open spec fn wf(&self, mem: &PhysMemory, pmm: &BuddyAllocator) -> bool {
        &&& pmm.wf()
        &&& space_ok(mem, self.root(), pmm@)
        &&& self.regions().len() <= MAX_VMAS
    }

    /// The region that holds `addr`: the first that contains it.
    pub open spec fn region_of(&self, addr: u64) -> Option<Vma> {
        first_containing(self.regions(), addr)
    }

    /// A new address space without regions. Its root table is a fresh
    /// frame; the upper half of the root's entries are those of `kernel`,
    /// where one is given, so that the new space sees the kernel as every
    /// other does. `None` if no frame is free.
    pub fn new(
        mem: &mut PhysMemory,
        pmm: &mut BuddyAllocator,
        kernel: Option<&AddressSpace>,
    ) -> (r: Option<Self>)
        requires
            old(pmm).wf(),
            old(mem).wf(),
            old(mem).backs(old(pmm)@),
            kernel matches Some(k) ==> k.wf(old(mem), old(pmm)),
        ensures
            final(pmm).wf(),
            final(mem).wf(),
            final(mem).backs(final(pmm)@),
            final(pmm)@ == old(pmm)@.take_pages(1),
            r.is_some() == (old(pmm)@.free_pages > 0),
            r.is_none() ==> *final(mem) == *old(mem),
            r matches Some(s) ==> old(pmm)@.allocate(0).is_some() && s.root() == old(
                pmm
            )@.allocate(0).unwrap().0 && s.wf(final(mem), final(pmm)) && s.regions().len() == 0
                && root_shares(
                final(mem),
                s.root(),
                match kernel {
                    Some(k) => Some(k.root()),
                    None => None,
                },
            )
                && final(mem).same_outside(old(mem), s.root(), s.root() + 4096) && (forall|v: u64| #[trigger]
                leaf(final(mem), s.root(), v) == (match kernel {
                    Some(k) => if upper_half(v) {
                        leaf(old(mem), k.root(), v)
                    } else {
                        None
                    },
                    None => None,
                })),
            kernel matches Some(k) ==> k.wf(final(mem), final(pmm)) && same_leaves(
                old(mem),
                final(mem),
                k.root(),
            ),
    {
        let ghost m0 = *mem;
        let ghost s0 = pmm@;
        proof {
            lemma_alloc_succeeds(s0, 0);
            lemma_take_pages(s0, 1);
        }
        let pml4_phys: PhysAddr = match alloc_page(pmm) {
            Some(p) => p,
            None => {
                assert(s0.take_pages(1) == s0);
                return None;
            },
        };
        let ghost s1 = pmm@;
        let ghost p = pml4_phys.0 as int;
        proof {
            lemma_alloc_page_frame(s0);
            lemma_alloc(s0, 0);
            assert(s0.take_pages(1) == s1) by {
                assert(s1.take_pages(0) == s1);
            }
            assert(page_free(s0.free, s0.page_of(p)));
            assert(mem.contains_frame(p));
        }
        mem.zero_frame(pml4_phys);
        let ghost m1 = *mem;
        match kernel {
            Some(k) => {
                let ghost kr = k.root();
                proof {
                    assert(table_at(&m0, kr, 0, 0) == Some(kr));
                    assert(m0.contains_frame(kr));
                    assert(is_table(&m0, kr, kr));
                    assert(!is_table(&m0, kr, p)) by {
                        if is_table(&m0, kr, p) {
                            let (d, v) = choose|d: nat, v: u64|
                                d <= 3 && #[trigger] table_at(&m0, kr, d, v) == Some(p);
                            assert(table_at(&m0, kr, d, v).is_some());
                        }
                    }
                    assert(kr != p);
                }
                let mut i: usize = 256;
                while i < 512
                    invariant
                        256 <= i <= 512,
                        mem.wf(),
                        m0.wf(),
                        mem.same_outside(&m0, p, p + 4096),
                        mem.contains_frame(p),
                        m0.contains_frame(kr),
                        kr == k.pml4.0,
                        p == pml4_phys.0,
                        kr != p,
                        forall|j: nat|
                            j < 512 ==> #[trigger] entry_at(mem, p, j) == (if 256 <= j < i {
                                entry_at(&m0, kr, j)
                            } else {
                                0
                            }),
                    decreases 512 - i,
                {
                    proof {
                        lemma_entry_addr(&m0, kr, i as nat);
                        lemma_entry_addr(mem, p, i as nat);
                    }
                    let e = read_entry(mem, k.pml4, i);
                    let ghost before = *mem;
                    mem.write(PhysAddr::new(pml4_phys.0 + 8 * (i as u64)), e.0);
                    proof {
                        assert forall|j: nat| j < 512 implies #[trigger] entry_at(mem, p, j) == (
                        if 256 <= j < i + 1 {
                            entry_at(&m0, kr, j)
                        } else {
                            0
                        }) by {
                            lemma_entry_addr(&before, p, j);
                            if j != i {
                                assert(entry_at(mem, p, j) == entry_at(&before, p, j));
                            }
                        }
                        assert forall|a: int|
                            mem.contains_word(a) && !(p <= a < p + 4096) implies #[trigger] mem.word(
                            a,
                        ) == m0.word(a) by {
                            assert(mem.word(a) == before.word(a));
                        }
                    }
                    i += 1;
                }
            },
            None => {},
        }
        let space = Self { pml4: pml4_phys, vmas: Vec::new() };
        proof {
            let m2 = *mem;
            let kroot: Option<int> = match kernel {
                Some(k) => Some(k.root()),
                None => None,
            };
            assert forall|a: int| m0.contains_word(a) && #[trigger] m2.word(a) != m0.word(a) implies p
                <= a < p + 4096 by {}
            if kernel.is_some() {
                let kr = kernel.unwrap().root();
                assert forall|a: int|
                    m0.contains_word(a) && #[trigger] m2.word(a) != m0.word(a) implies !is_table(
                    &m0,
                    kr,
                    frame_base(a),
                ) by {
                    lemma_frame_base(p, a);
                }
                lemma_tables_same(&m0, &m2, kr);
                assert forall|j: nat| j < 512 implies entry_at(&m2, kr, j) == entry_at(&m0, kr, j) by {
                    lemma_entry_addr(&m0, kr, j);
                }
                assert(root_shares(&m2, p, kroot));
                assert forall|d: nat, v: u64|
                    d <= 3 && (#[trigger] table_at(&m2, kr, d, v)).is_some() implies !s1.frame_is_free(
                    table_at(&m2, kr, d, v).unwrap(),
                ) by {
                    assert(table_at(&m0, kr, d, v).is_some());
                }
            } else {
                assert forall|j: nat| j < 512 implies #[trigger] entry_at(&m2, p, j) == 0 by {
                    lemma_entry_addr(&m1, p, j);
                }
                assert(root_shares(&m2, p, kroot));
            }
            lemma_shared_space(&m2, p, kroot);
            assert forall|d: nat, v: u64|
                d <= 3 && (#[trigger] table_at(&m2, p, d, v)).is_some() implies !s1.frame_is_free(
                table_at(&m2, p, d, v).unwrap(),
            ) by {
                let x = table_at(&m2, p, d, v).unwrap();
                assert(is_table(&m2, p, x));
                if x != p {
                    let kr = kernel.unwrap().root();
                    assert(is_table(&m0, kr, x));
                    let (d0, v0) = choose|d0: nat, v0: u64|
                        d0 <= 3 && #[trigger] table_at(&m0, kr, d0, v0) == Some(x);
                    assert(table_at(&m0, kr, d0, v0).is_some());
                }
            }
        }
        Some(space)
    }

    /// Maps the page of `virt` to the frame at `phys` with `flags`. Tables
    /// that are missing on the way are made from fresh frames; `false` if
    /// the allocator has none left, and no translation has changed then.
    pub fn map(
        &mut self,
        mem: &mut PhysMemory,
        pmm: &mut BuddyAllocator,
        virt: VirtAddr,
        phys: PhysAddr,
        flags: PageFlags,
    ) -> (ok: bool)
        requires
            old(self).wf(old(mem), old(pmm)),
            virt.0 % 4096 == 0,
            phys.0 % 4096 == 0,
        ensures
            final(self).wf(final(mem), final(pmm)),
            *final(self) == *old(self),
            ok == (old(pmm)@.free_pages >= missing_tables(old(mem), old(self).root(), virt.0)),
            final(pmm)@ == old(pmm)@.take_pages(
                if ok {
                    missing_tables(old(mem), old(self).root(), virt.0)
                } else {
                    old(pmm)@.free_pages
                },
            ),
            ok ==> mapped(old(mem), final(mem), old(self).root(), virt.0, phys.0, flags@),
            !ok ==> same_leaves(old(mem), final(mem), old(self).root()),
            changed_within(old(mem), final(mem), old(self).root(), old(pmm)@),
            forall|x: int| #[trigger]
                is_table(final(mem), old(self).root(), x) ==> is_table(
                    old(mem),
                    old(self).root(),
                    x,
                ) || old(pmm)@.frame_is_free(x),
            forall|x: int| #[trigger] final(pmm)@.frame_is_free(x) ==> old(pmm)@.frame_is_free(x),
            ok ==> forall|d: nat|
                d < 3 && (#[trigger] table_at(old(mem), old(self).root(), d + 1, virt.0)).is_none()
                    ==> link_entry(final(mem), old(self).root(), d, virt.0) == pte_new(
                    table_at(final(mem), old(self).root(), d + 1, virt.0).unwrap() as u64,
                    TABLE_FLAGS,
                ),
            ok ==> tables_grew(old(mem), final(mem), old(self).root(), virt.0, 3),
            ok ==> link_entry(final(mem), old(self).root(), 3, virt.0) == pte_new(phys.0, flags@),
    {
        map_page(mem, pmm, self.pml4, virt, phys, flags)
    }

    /// Takes the page of `virt` out of the translation; nothing happens
    /// where it is not mapped. The tables stay.
    pub fn unmap(&mut self, mem: &mut PhysMemory, virt: VirtAddr)
        requires
            old(mem).wf(),
            tables_wf(old(mem), old(self).root()),
        ensures
            *final(self) == *old(self),
            final(mem).wf(),
            tables_wf(final(mem), old(self).root()),
            unmapped(old(mem), final(mem), old(self).root(), virt.0),
            final(mem).base() == old(mem).base(),
            final(mem).size() == old(mem).size(),
            forall|x: int|
                is_table(final(mem), old(self).root(), x) <==> is_table(
                    old(mem),
                    old(self).root(),
                    x,
                ),
            forall|d: nat, v: u64|
                d <= 3 ==> #[trigger] table_at(final(mem), old(self).root(), d, v) == table_at(
                    old(mem),
                    old(self).root(),
                    d,
                    v,
                ),
            match table_at(old(mem), old(self).root(), 3, virt.0) {
                Some(t) => wrote(
                    old(mem),
                    final(mem),
                    t + 8 * crate::mm::page_table::table_index(3, virt.0),
                    0,
                ),
                None => *final(mem) == *old(mem),
            },
    {
        unmap_page(mem, self.pml4, virt);
    }

    /// The physical address that `virt` translates to, or `None` where its
    /// page is not mapped.
    pub fn translate(&self, mem: &PhysMemory, virt: VirtAddr) -> (r: Option<PhysAddr>)
        requires
            mem.wf(),
            tables_wf(mem, self.root()),
        ensures
            match r {
                Some(a) => translation(mem, self.root(), virt.0) == Some(a.0 as int),
                None => translation(mem, self.root(), virt.0).is_none(),
            },
    {
        translate_addr(mem, self.pml4, virt)
    }

    /// The value to load into the CPU's address-space register to make this
    /// space the current one.
    pub fn activate(&self) -> (r: u64)
        ensures
            r == self.root(),
    {
        self.pml4.as_u64()
    }

    /// Adds a region, if there is room for one more.
    pub fn add_vma(&mut self, vma: Vma) -> (r: bool)
        ensures
            final(self).root() == old(self).root(),
            r == (old(self).regions().len() < MAX_VMAS),
            r ==> final(self).regions() == old(self).regions().push(vma),
            !r ==> final(self).regions() == old(self).regions(),
    {
        if self.vmas.len() >= MAX_VMAS {
            return false;
        }
        self.vmas.push(vma);
        true
    }

    /// The region that contains `addr`, if there is one; the first, where
    /// there are several.
    pub fn find_vma(&self, addr: VirtAddr) -> (r: Option<&Vma>)
        ensures
            match r {
                Some(vma) => self.region_of(addr.0) == Some(*vma),
                None => self.region_of(addr.0).is_none(),
            },
    {
        let mut i: usize = 0;
        assert(self.vmas@.skip(0) =~= self.vmas@);
        while i < self.vmas.len()
            invariant
                i <= self.vmas@.len(),
                first_containing(self.vmas@, addr.0) == first_containing(
                    self.vmas@.skip(i as int),
                    addr.0,
                ),
            decreases self.vmas@.len() - i,
        {
            if self.vmas[i].contains(addr) {
                assert(self.vmas@.skip(i as int)[0] == self.vmas@[i as int]);
                return Some(&self.vmas[i]);
            }
            assert(self.vmas@.skip(i as int).drop_first() =~= self.vmas@.skip(i + 1));
            i += 1;
        }
        assert(self.vmas@.skip(i as int).len() == 0);
        None
    }

    /// Records the anonymous region `[start, start + size)`. No page is
    /// mapped; pages come with the faults on them.
    pub fn map_anonymous(&mut self, start: VirtAddr, size: u64, flags: PageFlags) -> (r: bool)
        requires
            start.0 + size <= u64::MAX,
        ensures
            final(self).root() == old(self).root(),
            r == (old(self).regions().len() < MAX_VMAS),
            r ==> final(self).regions() == old(self).regions().push(
                (Vma {
                    start,
                    end: VirtAddr((start.0 + size) as u64),
                    flags,
                    kind: VmaKind::Anonymous,
                }),
            ),
            !r ==> final(self).regions() == old(self).regions(),
    {
        let end = VirtAddr::new(start.as_u64() + size);
        self.add_vma(Vma { start, end, flags, kind: VmaKind::Anonymous })
    }

    /// Maps the pages of `[start, start + size)` to the frames from `phys`
    /// on, all with `flags`. First the tables are made that the pages lack;
    /// if the frames run out for them, nothing is mapped and `false` is
    /// returned. Then the leaves are written.
    pub fn map_range(
        &mut self,
        mem: &mut PhysMemory,
        pmm: &mut BuddyAllocator,
        start: VirtAddr,
        phys: PhysAddr,
        size: u64,
        flags: PageFlags,
    ) -> (ok: bool)
        requires
            old(self).wf(old(mem), old(pmm)),
            start.0 % 4096 == 0,
            phys.0 % 4096 == 0,
            size <= 0x1_0000_0000_0000,
            start.0 + size <= u64::MAX,
            phys.0 + size <= u64::MAX,
        ensures
            final(self).wf(final(mem), final(pmm)),
            *final(self) == *old(self),
            changed_within(old(mem), final(mem), old(self).root(), old(pmm)@),
            ok == (old(pmm)@.free_pages >= range_tables(
                old(mem),
                old(self).root(),
                start.0,
                pages_of(size),
            )),
            final(pmm)@ == old(pmm)@.take_pages(
                if ok {
                    range_tables(old(mem), old(self).root(), start.0, pages_of(size))
                } else {
                    old(pmm)@.free_pages
                },
            ),
            ok ==> pages_mapped(
                old(mem),
                final(mem),
                old(self).root(),
                start.0,
                phys.0,
                flags@,
                whole_pages(size),
            ),
            ok ==> range_grew(old(mem), final(mem), old(self).root(), start.0, pages_of(size)),
            !ok ==> same_leaves(old(mem), final(mem), old(self).root()),
    {
        let ghost m0 = *mem;
        let ghost s0 = pmm@;
        let ghost rt = self.root();
        let ghost total = pages_of(size);
        let mut offset: u64 = 0;
        proof {
            assert(s0.take_pages(0) == s0);
            lemma_range_start(&m0, rt, start.0);
        }
        // the tables
        while offset < size
            invariant
                self.wf(mem, pmm),
                *self == *old(self),
                rt == self.root(),
                m0 == *old(mem),
                s0 == old(pmm)@,
                s0.wf(),
                total == pages_of(size),
                offset % 4096 == 0,
                offset <= size + 4095,
                offset / 4096 <= total,
                size <= 0x1_0000_0000_0000,
                start.0 + size <= u64::MAX,
                changed_within(&m0, mem, rt, s0),
                same_leaves(&m0, mem, rt),
                forall|x: int| #[trigger] pmm@.frame_is_free(x) ==> s0.frame_is_free(x),
                forall|x: int| #[trigger]
                    is_table(mem, rt, x) ==> is_table(&m0, rt, x) || s0.frame_is_free(x),
                range_grew(&m0, mem, rt, start.0, (offset / 4096) as nat),
                pmm@ == s0.take_pages(range_tables(&m0, rt, start.0, (offset / 4096) as nat)),
                s0.free_pages >= range_tables(&m0, rt, start.0, (offset / 4096) as nat),
            decreases size + 4096 - offset,
        {
            let ghost m1 = *mem;
            let ghost s1 = pmm@;
            let ghost n = (offset / 4096) as nat;
            let virt = VirtAddr::new(start.as_u64() + offset);
            proof {
                assert(virt.0 == nth_page(start.0, n));
                lemma_missing_is_new(&m0, &m1, rt, start.0, n);
                lemma_take_pages(s0, range_tables(&m0, rt, start.0, n));
                lemma_take_pages_add(
                    s0,
                    range_tables(&m0, rt, start.0, n),
                    new_tables(&m0, rt, start.0, n),
                );
                lemma_take_pages_add(s0, range_tables(&m0, rt, start.0, n), s1.free_pages);
                lemma_range_tables_monotone(&m0, rt, start.0, n + 1, total);
            }
            let table = walk_create(mem, pmm, self.pml4, virt);
            proof {
                lemma_changed_within_trans(&m0, &m1, mem, rt, s0, s1);
                lemma_same_leaves_trans(&m0, &m1, mem, rt);
            }
            if table.is_none() {
                return false;
            }
            proof {
                lemma_range_step(&m0, &m1, mem, rt, start.0, n);
            }
            offset += PAGE_SIZE as u64;
        }
        let ghost mid = *mem;
        let ghost first = pmm@;
        proof {
            assert(offset / 4096 == total);
            lemma_range_complete(&m0, &mid, rt, start.0, total);
            assert(first.take_pages(0) == first);
        }
        // the leaves
        let mut offset: u64 = 0;
        while offset < size
            invariant
                self.wf(mem, pmm),
                *self == *old(self),
                rt == self.root(),
                m0 == *old(mem),
                s0 == old(pmm)@,
                total == pages_of(size),
                offset % 4096 == 0,
                offset <= size + 4095,
                offset / 4096 <= total,
                size <= 0x1_0000_0000_0000,
                start.0 % 4096 == 0,
                phys.0 % 4096 == 0,
                start.0 + size <= u64::MAX,
                phys.0 + size <= u64::MAX,
                pmm@ == first,
                first.wf(),
                mid.wf(),
                changed_within(&m0, &mid, rt, s0),
                changed_within(&mid, mem, rt, first),
                forall|x: int| #[trigger] first.frame_is_free(x) ==> s0.frame_is_free(x),
                forall|x: int| #[trigger]
                    is_table(&mid, rt, x) ==> is_table(&m0, rt, x) || s0.frame_is_free(x),
                forall|x: int| #[trigger]
                    is_table(mem, rt, x) ==> is_table(&mid, rt, x) || first.frame_is_free(x),
                forall|dd: nat, w: u64|
                    dd <= 3 ==> (#[trigger] table_at(mem, rt, dd, w)).is_some() == table_at(
                        &mid,
                        rt,
                        dd,
                        w,
                    ).is_some(),
                forall|k: nat|
                    k < total ==> missing_tables(&mid, rt, #[trigger] nth_page(start.0, k)) == 0,
                pages_mapped(&mid, mem, rt, start.0, phys.0, flags@, offset),
            decreases size + 4096 - offset,
        {
            let ghost m1 = *mem;
            let ghost n = (offset / 4096) as nat;
            let virt = VirtAddr::new(start.as_u64() + offset);
            proof {
                assert(virt.0 == nth_page(start.0, n));
                assert(virt.0 == page_at(start.0, offset));
                lemma_pages_apart(start.0, offset, offset);
                assert(missing_tables(&mid, rt, nth_page(start.0, n)) == 0);
                assert(missing_tables(&m1, rt, virt.0) == 0);
            }
            let ok = map_page(
                mem,
                pmm,
                self.pml4,
                virt,
                PhysAddr::new(phys.as_u64() + offset),
                flags,
            );
            proof {
                assert(ok);
                lemma_map_keeps_tables(&m1, mem, rt, virt.0);
                lemma_changed_within_same(&mid, &m1, mem, rt, first);
                assert forall|v: u64| !in_pages(v, start.0, (offset + 4096) as u64) implies #[trigger] leaf(
                    mem,
                    rt,
                    v,
                ) == leaf(&mid, rt, v) by {
                    if in_pages(v, start.0, offset) {
                        let off = choose|off: u64|
                            off % 4096 == 0 && off < offset && same_page(
                                v,
                                #[trigger] page_at(start.0, off),
                            );
                        assert(off % 4096 == 0 && off < offset + 4096 && same_page(
                            v,
                            page_at(start.0, off),
                        ));
                    }
                    if same_page(v, virt.0) {
                        assert(offset % 4096 == 0 && offset < offset + 4096 && same_page(
                            v,
                            page_at(start.0, offset),
                        ));
                    }
                }
                assert forall|off: u64| off % 4096 == 0 && off < offset + 4096 implies #[trigger] leaf(
                    mem,
                    rt,
                    page_at(start.0, off),
                ) == (if pte_present(pte_new((phys.0 + off) as u64, flags@)) {
                    Some(pte_new((phys.0 + off) as u64, flags@))
                } else {
                    None
                }) by {
                    lemma_pages_apart(start.0, off, offset);
                }
            }
            offset += PAGE_SIZE as u64;
        }
        proof {
            assert(offset == whole_pages(size));
            assert(pages_mapped(&m0, mem, rt, start.0, phys.0, flags@, offset)) by {
                assert forall|v: u64| #[trigger] leaf(&mid, rt, v) == leaf(&m0, rt, v) by {}
            }
            lemma_changed_within_chain(&m0, &mid, mem, rt, s0, first);
            lemma_range_same_tables(&m0, &mid, mem, rt, start.0, total);
        }
        true
    }

    /// Records the shared region `[start, start + size)` and maps its
    /// pages to the frames from `phys` on. `false`, with nothing mapped
    /// and nothing recorded, if the space holds as many regions as it can
    /// or if the frames run out for the tables that the pages lack.
    pub fn map_shared(
        &mut self,
        mem: &mut PhysMemory,
        pmm: &mut BuddyAllocator,
        start: VirtAddr,
        phys: PhysAddr,
        size: u64,
        flags: PageFlags,
    ) -> (r: bool)
        requires
            old(self).wf(old(mem), old(pmm)),
            start.0 % 4096 == 0,
            phys.0 % 4096 == 0,
            size <= 0x1_0000_0000_0000,
            start.0 + size <= u64::MAX,
            phys.0 + size <= u64::MAX,
        ensures
            final(self).wf(final(mem), final(pmm)),
            final(self).root() == old(self).root(),
            changed_within(old(mem), final(mem), old(self).root(), old(pmm)@),
            r == (old(self).regions().len() < MAX_VMAS && old(pmm)@.free_pages >= range_tables(
                old(mem),
                old(self).root(),
                start.0,
                pages_of(size),
            )),
            final(pmm)@ == (if old(self).regions().len() >= MAX_VMAS {
                old(pmm)@
            } else {
                old(pmm)@.take_pages(
                    if r {
                        range_tables(old(mem), old(self).root(), start.0, pages_of(size))
                    } else {
                        old(pmm)@.free_pages
                    },
                )
            }),
            r ==> final(self).regions() == old(self).regions().push(
                (Vma {
                    start,
                    end: VirtAddr((start.0 + size) as u64),
                    flags,
                    kind: VmaKind::Shared(phys),
                }),
            ) && pages_mapped(
                old(mem),
                final(mem),
                old(self).root(),
                start.0,
                phys.0,
                flags@,
                whole_pages(size),
            ),
            !r ==> final(self).regions() == old(self).regions() && same_leaves(
                old(mem),
                final(mem),
                old(self).root(),
            ),
    {
        if self.vmas.len() >= MAX_VMAS {
            return false;
        }
        let mapped_all = self.map_range(mem, pmm, start, phys, size, flags);
        if !mapped_all {
            return false;
        }
        let end = VirtAddr::new(start.as_u64() + size);
        self.add_vma(Vma { start, end, flags, kind: VmaKind::Shared(phys) })
    }
}

/// The region that a fault at `addr` with the error code `error` can be
/// served from: the region that holds `addr`, if it is anonymous and, where
/// the fault is a write, writable.
pub open spec fn servable_region(regions: Seq<Vma>, addr: u64, error: u64) -> Option<Vma> {
    match first_containing(regions, addr) {
        Some(vma) => if error & 0x2 != 0 && vma.flags@ & WRITABLE != WRITABLE {
            None
        } else if vma.kind == VmaKind::Anonymous {
            Some(vma)
        } else {
            None
        },
        None => None,
    }
}

/// What serving a page fault comes to. Where no region can serve the fault
/// or no frame is free, it is not served and nothing changes. Otherwise a
/// frame is taken; the fault is served if the frames that are left suffice
/// for the tables that the page's walk lacks. Then the page is mapped to
/// the frame with the region's flags, and the frame is all zero. If they do
/// not suffice, the frame goes back and no translation has changed.
pub open spec fn page_fault_outcome(
    space: &AddressSpace,
    before: &PhysMemory,
    pmm_before: BuddyState,
    fault_addr: u64,
    error: u64,
    handled: bool,
    after: &PhysMemory,
    pmm_after: BuddyState,
) -> bool {
    match servable_region(space.regions(), fault_addr, error) {
        None => !handled && *after == *before && pmm_after == pmm_before,
        Some(vma) => match pmm_before.allocate(0) {
            None => !handled && *after == *before && pmm_after == pmm_before,
            Some((frame, rest)) => {
                let missing = missing_tables(
                    before,
                    space.root(),
                    (fault_addr - fault_addr % 4096) as u64,
                );
                &&& handled == (rest.free_pages >= missing)
                &&& handled ==> pmm_after == rest.take_pages(missing) && mapped(
                    before,
                    after,
                    space.root(),
                    fault_addr,
                    frame as u64,
                    vma.flags@,
                ) && forall|a: int|
                    frame <= a < frame + 4096 && a % 8 == 0 ==> #[trigger] after.word(a) == 0
                &&& !handled ==> pmm_after == rest.take_pages(rest.free_pages).release(frame, 0)
                    && same_leaves(before, after, space.root())
            },
        },
    }
}

/// Serves a page fault at `fault_addr`; bit 1 of `error` says that the
/// fault was a write. `true` if the fault was served: the address lies in
/// an anonymous region that allows the access, and its page is now mapped,
/// with the region's flags, to a fresh frame of zeroes. `false` otherwise:
/// no region, no right to write, a region that is not anonymous, or no
/// frame left for the page or for a table on the way to it.
pub fn handle_page_fault(
    space: &mut AddressSpace,
    mem: &mut PhysMemory,
    pmm: &mut BuddyAllocator,
    fault_addr: VirtAddr,
    error: u64,
) -> (handled: bool)
    requires
        old(space).wf(old(mem), old(pmm)),
    ensures
        final(space).wf(final(mem), final(pmm)),
        *final(space) == *old(space),
        changed_within(old(mem), final(mem), old(space).root(), old(pmm)@),
        page_fault_outcome(
            old(space),
            old(mem),
            old(pmm)@,
            fault_addr.0,
            error,
            handled,
            final(mem),
            final(pmm)@,
        ),
{
    let is_write: bool = error & 0x2 != 0;
    let vma: Vma = match space.find_vma(fault_addr) {
        Some(v) => *v,
        None => {
            return false;
        },
    };
    if is_write && !vma.flags.contains(PageFlags::writable()) {
        return false;
    }
    let flags = vma.flags;
    match vma.kind {
        VmaKind::Anonymous => {
            let ghost m0 = *mem;
            let ghost s0 = pmm@;
            let ghost rt = space.root();
            proof {
                lemma_alloc_succeeds(s0, 0);
            }
            let phys: PhysAddr = match alloc_page(pmm) {
                Some(p) => p,
                None => {
                    return false;
                },
            };
            let ghost s1 = pmm@;
            let ghost p = phys.0 as int;
            proof {
                lemma_alloc_page_frame(s0);
                lemma_alloc(s0, 0);
                assert(page_free(s0.free, s0.page_of(p)));
                assert(mem.contains_frame(p));
                assert(!is_table(&m0, rt, p)) by {
                    if is_table(&m0, rt, p) {
                        let (d, v) = choose|d: nat, v: u64|
                            d <= 3 && #[trigger] table_at(&m0, rt, d, v) == Some(p);
                        assert(table_at(&m0, rt, d, v).is_some());
                    }
                }
            }
            mem.zero_frame(phys);
            let ghost m1 = *mem;
            let page_start = VirtAddr::new(fault_addr.as_u64() & !(PAGE_SIZE as u64 - 1));
            proof {
                lemma_page_of(fault_addr.0);
                assert forall|a: int|
                    m0.contains_word(a) && #[trigger] m1.word(a) != m0.word(a) implies !is_table(
                    &m0,
                    rt,
                    frame_base(a),
                ) && s0.frame_is_free(frame_base(a)) by {
                    lemma_frame_base(p, a);
                }
                lemma_tables_same(&m0, &m1, rt);
                assert forall|d: nat, v: u64|
                    d <= 3 && (#[trigger] table_at(&m1, rt, d, v)).is_some() implies !s1.frame_is_free(
                    table_at(&m1, rt, d, v).unwrap(),
                ) by {
                    assert(table_at(&m0, rt, d, v).is_some());
                }
                assert(!is_table(&m1, rt, p));
                lemma_take_pages(s1, missing_tables(&m1, rt, page_start.0));
                lemma_take_pages(s1, s1.free_pages);
            }
            let ok = space.map(mem, pmm, page_start, phys, flags);
            let ghost m2 = *mem;
            let ghost s2 = pmm@;
            proof {
                lemma_changed_within_trans(&m0, &m1, &m2, rt, s0, s1);
                assert forall|a: int| p <= a < p + 4096 && a % 8 == 0 implies #[trigger] m2.word(a)
                    == 0 by {
                    lemma_frame_base(p, a);
                    if m2.word(a) != m1.word(a) {
                        assert(m1.contains_word(a));
                        assert(s1.frame_is_free(frame_base(a)) || is_table(&m1, rt, frame_base(a)));
                    }
                }
                assert forall|v: u64| same_page(v, page_start.0) == same_page(v, fault_addr.0) by {}
            }
            if !ok {
                proof {
                    assert(s2.can_release(p, 0)) by {
                        assert(s1.can_release(p, 0));
                        assert(s2.mem_start == s1.mem_start);
                    }
                    lemma_release_page_frame(s2, p);
                }
                free_page(pmm, phys);
                proof {
                    let s3 = pmm@;
                    assert forall|d: nat, v: u64|
                        d <= 3 && (#[trigger] table_at(&m2, rt, d, v)).is_some() implies !s3.frame_is_free(
                        table_at(&m2, rt, d, v).unwrap(),
                    ) by {
                        let x = table_at(&m2, rt, d, v).unwrap();
                        assert(is_table(&m2, rt, x));
                        assert(!s2.frame_is_free(x));
                        assert(x % 4096 == 0);
                        if s3.frame_is_free(x) {
                            assert(s3.page_of(x) == s2.page_of(p));
                            assert(x == p);
                            assert(is_table(&m1, rt, x) || s1.frame_is_free(x));
                        }
                    }
                    assert forall|q: int|
                        0 <= q && #[trigger] page_free(s3.free, q) implies m2.contains_frame(
                        s3.mem_start + 4096 * q,
                    ) by {
                        if !page_free(s2.free, q) {
                            assert(q == s2.page_of(p));
                        }
                    }
                }
                return false;
            }
            true
        },
        VmaKind::Shared(_) => false,
        VmaKind::Kernel => false,
    }
}

/// Frames that the kernel's address space takes: the root table, one table
/// at each of the next two depths, and a table of leaves for each 2 MiB of
/// the 16 MiB that it maps.
pub const KERNEL_SPACE_FRAMES: usize = 11;

/// Bytes of physical memory that the kernel's address space maps.
pub const KERNEL_MAPPED: u64 = 16 * 1024 * 1024;

/// How many tables mapping the first `n` pages of the direct map takes in
/// a space that has none: two on the way and one table of leaves for each
/// 512 pages begun.
pub open spec fn direct_map_tables(n: nat) -> nat {
    if n == 0 {
        0
    } else {
        (2 + (n + 511) / 512) as nat
    }
}

/// In a space without tables, the first pages of the direct map take the
/// tables that `direct_map_tables` counts.
pub proof fn lemma_direct_map_tables(mem: &PhysMemory, root: int, n: nat)
    requires
        n <= 0x4_0000,
        forall|d: nat, w: u64| 1 <= d <= 3 ==> (#[trigger] table_at(mem, root, d, w)).is_none(),
    ensures
        range_tables(mem, root, PHYSICAL_MAP_OFFSET, n) == direct_map_tables(n),
    decreases n,
{
    if n > 0 {
        let k = (n - 1) as nat;
        lemma_direct_map_tables(mem, root, k);
        let v = nth_page(PHYSICAL_MAP_OFFSET, k);
        assert(v == page_at(PHYSICAL_MAP_OFFSET, (4096 * k) as u64));
        assert forall|j: nat| j < k implies same_prefix(2, v, #[trigger] nth_page(PHYSICAL_MAP_OFFSET, j))
            && same_prefix(1, v, nth_page(PHYSICAL_MAP_OFFSET, j)) && (same_prefix(
            3,
            v,
            nth_page(PHYSICAL_MAP_OFFSET, j),
        ) <==> k / 512 == j / 512) by {
            lemma_near_prefix(PHYSICAL_MAP_OFFSET, (4096 * k) as u64, (4096 * j) as u64);
            assert(nth_page(PHYSICAL_MAP_OFFSET, j) == page_at(
                PHYSICAL_MAP_OFFSET,
                (4096 * j) as u64,
            ));
            assert((4096 * k) / 0x20_0000 == k / 512);
            assert((4096 * j) / 0x20_0000 == j / 512);
        }
        if k > 0 {
            let first = nth_page(PHYSICAL_MAP_OFFSET, 0);
            assert(0 < k && same_prefix(1, v, first));
            assert(0 < k && same_prefix(2, v, first));
            assert(on_range_walk(PHYSICAL_MAP_OFFSET, k, 1, v));
            assert(on_range_walk(PHYSICAL_MAP_OFFSET, k, 2, v));
            if k % 512 != 0 {
                let j = (k - 1) as nat;
                let before = nth_page(PHYSICAL_MAP_OFFSET, j);
                assert(j / 512 == k / 512);
                assert(j < k && same_prefix(3, v, before));
                assert(on_range_walk(PHYSICAL_MAP_OFFSET, k, 3, v));
            } else {
                assert(!on_range_walk(PHYSICAL_MAP_OFFSET, k, 3, v)) by {
                    if on_range_walk(PHYSICAL_MAP_OFFSET, k, 3, v) {
                        let j = choose|j: nat|
                            j < k && same_prefix(3, v, #[trigger] nth_page(PHYSICAL_MAP_OFFSET, j));
                        assert(k / 512 == j / 512);
                    }
                }
            }
        } else {
            assert forall|d: nat| 1 <= d <= 3 implies !on_range_walk(PHYSICAL_MAP_OFFSET, k, d, v) by {
                if on_range_walk(PHYSICAL_MAP_OFFSET, k, d, v) {
                    let j = choose|j: nat|
                        j < k && same_prefix(d, v, #[trigger] nth_page(PHYSICAL_MAP_OFFSET, j));
                }
            }
        }
        assert(table_at(mem, root, 1, v).is_none());
        assert(table_at(mem, root, 2, v).is_none());
        assert(table_at(mem, root, 3, v).is_none());
    }
}

/// The kernel's own address space: the first 16 MiB of physical memory,
/// mapped at the direct map for reading and writing by the kernel alone.
/// `None` if the allocator has fewer than the eleven frames that the
/// tables take; the frames that it had are used up then.
pub fn init(mem: &mut PhysMemory, pmm: &mut BuddyAllocator) -> (r: Option<AddressSpace>)
    requires
        old(pmm).wf(),
        old(mem).wf(),
        old(mem).backs(old(pmm)@),
    ensures
        final(pmm).wf(),
        final(mem).wf(),
        final(mem).backs(final(pmm)@),
        r.is_some() == (old(pmm)@.free_pages >= KERNEL_SPACE_FRAMES),
        final(pmm)@ == old(pmm)@.take_pages(KERNEL_SPACE_FRAMES as nat),
        r matches Some(s) ==> s.wf(final(mem), final(pmm)) && s.regions().len() == 0 && (forall|
            off: u64,
        |
            off < KERNEL_MAPPED ==> #[trigger] translation(
                final(mem),
                s.root(),
                page_at(PHYSICAL_MAP_OFFSET, off),
            ) == Some(off as int)) && (forall|off: u64|
            off % 4096 == 0 && off < KERNEL_MAPPED ==> #[trigger] leaf(
                final(mem),
                s.root(),
                page_at(PHYSICAL_MAP_OFFSET, off),
            ) == Some(pte_new(off, KERNEL_RW))) && (forall|v: u64|
            !in_pages(v, PHYSICAL_MAP_OFFSET, KERNEL_MAPPED) ==> (#[trigger] leaf(
                final(mem),
                s.root(),
                v,
            )).is_none()),
{
    let ghost s0 = pmm@;
    proof {
        lemma_take_pages(s0, 1);
        lemma_take_pages(s0, 11);
        lemma_take_pages_add(s0, 1, 10);
    }
    let mut space = match AddressSpace::new(mem, pmm, None) {
        Some(s) => s,
        None => {
            proof {
                crate::mm::buddy::lemma_alloc_succeeds(s0, 0);
                crate::mm::buddy::lemma_take_pages_stuck(s0, 1);
                crate::mm::buddy::lemma_take_pages_stuck(s0, 11);
            }
            return None;
        },
    };
    let ghost rt = space.root();
    let ghost m1 = *mem;
    let ghost s1 = pmm@;
    proof {
        assert forall|d: nat, w: u64| 1 <= d <= 3 implies (#[trigger] table_at(
            &m1,
            rt,
            d,
            w,
        )).is_none() by {
            lemma_shared_walk(&m1, rt, None, d, w);
        }
        lemma_direct_map_tables(&m1, rt, 4096);
        assert(pages_of(KERNEL_MAPPED) == 4096);
        assert(direct_map_tables(4096) == 10);
        lemma_take_pages(s1, 10);
        lemma_take_pages(s1, s1.free_pages);
        lemma_take_pages_add(s0, 1, s1.free_pages);
        lemma_take_pages(s0, (1 + s1.free_pages) as nat);
        lemma_flag_constants();
    }
    let ok = space.map_range(
        mem,
        pmm,
        VirtAddr::new(PHYSICAL_MAP_OFFSET),
        PhysAddr::new(0),
        KERNEL_MAPPED,
        PageFlags::kernel_rw(),
    );
    if !ok {
        proof {
            // the frames that there were are used up
            lemma_take_all(s0, (1 + s1.free_pages) as nat, 11);
        }
        return None;
    }
    proof {
        assert(whole_pages(KERNEL_MAPPED) == KERNEL_MAPPED);
        assert forall|off: u64| off < KERNEL_MAPPED implies #[trigger] translation(
            mem,
            rt,
            page_at(PHYSICAL_MAP_OFFSET, off),
        ) == Some(off as int) by {
            let v = page_at(PHYSICAL_MAP_OFFSET, off);
            let page = (off - off % 4096) as u64;
            lemma_page_of(v);
            lemma_offset_page(PHYSICAL_MAP_OFFSET, off);
            assert(v - v % 4096 == page_at(PHYSICAL_MAP_OFFSET, page));
            lemma_leaf_same_page(mem, rt, v, page_at(PHYSICAL_MAP_OFFSET, page));
            assert(leaf(mem, rt, page_at(PHYSICAL_MAP_OFFSET, page)) == Some(
                pte_new(page, KERNEL_RW),
            )) by {
                lemma_pte_new(page, KERNEL_RW);
                assert(KERNEL_RW & PRESENT != 0) by (bit_vector);
            }
            lemma_pte_new(page, KERNEL_RW);
        }
        assert forall|v: u64| !in_pages(v, PHYSICAL_MAP_OFFSET, KERNEL_MAPPED) implies (#[trigger] leaf(
            mem,
            rt,
            v,
        )).is_none() by {
            assert(leaf(mem, rt, v) == leaf(&m1, rt, v));
        }
        assert forall|off: u64| off % 4096 == 0 && off < KERNEL_MAPPED implies #[trigger] leaf(
            mem,
            rt,
            page_at(PHYSICAL_MAP_OFFSET, off),
        ) == Some(pte_new(off, KERNEL_RW)) by {
            lemma_pte_new(off, KERNEL_RW);
            assert(KERNEL_RW & PRESENT != 0) by (bit_vector);
        }
    }
    Some(space)
}

/// Once all free pages are taken, taking more changes nothing.
pub proof fn lemma_take_all(s: BuddyState, a: nat, b: nat)
    requires
        s.wf(),
        a >= s.free_pages,
        b >= s.free_pages,
    ensures
        s.take_pages(a) == s.take_pages(b),
    decreases s.free_pages,
{
    lemma_alloc_succeeds(s, 0);
    if s.free_pages > 0 && a > 0 && b > 0 {
        lemma_alloc(s, 0);
        assert(crate::mm::buddy::block_pages(0) == 1);
        lemma_take_all(s.allocate(0).unwrap().1, (a - 1) as nat, (b - 1) as nat);
    } else if s.free_pages == 0 {
        crate::mm::buddy::lemma_take_pages_stuck(s, a);
        crate::mm::buddy::lemma_take_pages_stuck(s, b);
    }
}

/// After a fault in a region that is present has been served, the address
/// translates to a byte of the fresh frame, and the byte is zero.
pub proof fn lemma_served_fault_reads_zero(
    space: &AddressSpace,
    before: &PhysMemory,
    pmm_before: BuddyState,
    fault_addr: u64,
    error: u64,
    after: &PhysMemory,
    pmm_after: BuddyState,
)
    requires
        pmm_before.wf(),
        before.wf(),
        before.backs(pmm_before),
        page_fault_outcome(space, before, pmm_before, fault_addr, error, true, after, pmm_after),
        servable_region(space.regions(), fault_addr, error) matches Some(vma) && vma.flags.valid()
            && vma.flags@ & PRESENT != 0,
    ensures
        translation(after, space.root(), fault_addr) == Some(
            pmm_before.allocate(0).unwrap().0 + fault_addr % 4096,
        ),
        after.byte(pmm_before.allocate(0).unwrap().0 + fault_addr % 4096) == 0,
{
    let vma = servable_region(space.regions(), fault_addr, error).unwrap();
    let frame = pmm_before.allocate(0).unwrap().0;
    lemma_alloc_page_frame(pmm_before);
    assert(page_free(pmm_before.free, pmm_before.page_of(frame)));
    assert(before.contains_frame(frame));
    lemma_pte_new(frame as u64, vma.flags@);
    lemma_page_of(fault_addr);
    assert(leaf(after, space.root(), fault_addr) == Some(pte_new(frame as u64, vma.flags@)));
    crate::mm::page_table::lemma_zero_frame_reads_zero(
        after,
        space.root(),
        fault_addr,
        frame as u64,
        vma.flags@,
    );
}

/// A fault at an address of an anonymous region that has just been
/// recorded, present and, where the fault is a write, writable, is served
/// where the free frames suffice for the page and for the tables that its
/// walk lacks, and the address reads zero afterwards. This holds where no
/// region recorded earlier contains the address, as it is with regions
/// that do not overlap: the region found for an address is the first that
/// contains it.
pub proof fn lemma_anonymous_fault_reads_zero(
    space: &AddressSpace,
    earlier: Seq<Vma>,
    start: VirtAddr,
    size: u64,
    flags: PageFlags,
    before: &PhysMemory,
    pmm_before: BuddyState,
    fault_addr: u64,
    error: u64,
    handled: bool,
    after: &PhysMemory,
    pmm_after: BuddyState,
)
    requires
        pmm_before.wf(),
        before.wf(),
        before.backs(pmm_before),
        start.0 + size <= u64::MAX,
        flags.valid(),
        flags@ & PRESENT != 0,
        error & 0x2 != 0 ==> flags@ & WRITABLE == WRITABLE,
        space.regions() == earlier.push(
            (Vma {
                start,
                end: VirtAddr((start.0 + size) as u64),
                flags,
                kind: VmaKind::Anonymous,
            }),
        ),
        start.0 <= fault_addr < start.0 + size,
        first_containing(earlier, fault_addr).is_none(),
        pmm_before.free_pages >= 1 + missing_tables(
            before,
            space.root(),
            (fault_addr - fault_addr % 4096) as u64,
        ),
        page_fault_outcome(space, before, pmm_before, fault_addr, error, handled, after, pmm_after),
    ensures
        handled,
        translation(after, space.root(), fault_addr) == Some(
            pmm_before.allocate(0).unwrap().0 + fault_addr % 4096,
        ),
        after.byte(pmm_before.allocate(0).unwrap().0 + fault_addr % 4096) == 0,
{
    let vma = Vma {
        start,
        end: VirtAddr((start.0 + size) as u64),
        flags,
        kind: VmaKind::Anonymous,
    };
    lemma_region_added(earlier, vma, fault_addr);
    assert(vma.spec_contains(fault_addr));
    assert(servable_region(space.regions(), fault_addr, error) == Some(vma));
    lemma_alloc_succeeds(pmm_before, 0);
    assert(crate::mm::buddy::block_pages(0) == 1);
    lemma_alloc(pmm_before, 0);
    assert(handled);
    lemma_served_fault_reads_zero(
        space,
        before,
        pmm_before,
        fault_addr,
        error,
        after,
        pmm_after,
    );
}

/// A region added at the end is found for the addresses that it contains
/// and that no earlier region contains; every other address finds what it
/// found before.
pub proof fn lemma_region_added(regions: Seq<Vma>, vma: Vma, addr: u64)
    ensures
        first_containing(regions.push(vma), addr) == (match first_containing(regions, addr) {
            Some(r) => Some(r),
            None => if vma.spec_contains(addr) {
                Some(vma)
            } else {
                None
            },
        }),
    decreases regions.len(),
{
    let all = regions.push(vma);
    if regions.len() == 0 {
        assert(all.drop_first().len() == 0);
    } else {
        assert(all.drop_first() =~= regions.drop_first().push(vma));
        lemma_region_added(regions.drop_first(), vma, addr);
    }
}

/// An address finds a region exactly where some region contains it; the
/// region found contains it.
pub proof fn lemma_region_found(regions: Seq<Vma>, addr: u64)
    ensures
        first_containing(regions, addr).is_some() <==> exists|i: int|
            0 <= i < regions.len() && (#[trigger] regions[i]).spec_contains(addr),
        first_containing(regions, addr) matches Some(r) ==> r.spec_contains(addr),
    decreases regions.len(),
{
    if regions.len() > 0 {
        lemma_region_found(regions.drop_first(), addr);
        let rest = regions.drop_first();
        if regions[0].spec_contains(addr) {
        } else {
            if first_containing(rest, addr).is_some() {
                let i = choose|i: int| 0 <= i < rest.len() && (#[trigger] rest[i]).spec_contains(addr);
                assert(regions[i + 1].spec_contains(addr));
            }
            if exists|i: int| 0 <= i < regions.len() && (#[trigger] regions[i]).spec_contains(addr) {
                let i = choose|i: int|
                    0 <= i < regions.len() && (#[trigger] regions[i]).spec_contains(addr);
                assert(rest[i - 1].spec_contains(addr));
            }
        }
    }
}

/// No address lies in two of `regions`.
pub open spec fn regions_disjoint(regions: Seq<Vma>) -> bool {
    forall|a: int, b: int, x: u64|
        0 <= a < b < regions.len() ==> !(#[trigger] regions[a].spec_contains(x)
            && #[trigger] regions[b].spec_contains(x))
}

/// Where no two regions overlap, the region found for an address is the
/// only one that contains it.
pub proof fn lemma_region_unique(regions: Seq<Vma>, addr: u64, i: int)
    requires
        regions_disjoint(regions),
        0 <= i < regions.len(),
        regions[i].spec_contains(addr),
    ensures
        first_containing(regions, addr) == Some(regions[i]),
    decreases regions.len(),
{
    if i > 0 {
        let rest = regions.drop_first();
        assert(!(regions[0].spec_contains(addr) && regions[i].spec_contains(addr)));
        assert forall|a: int, b: int, x: u64|
            0 <= a < b < rest.len() implies !(#[trigger] rest[a].spec_contains(x)
            && #[trigger] rest[b].spec_contains(x)) by {
            assert(!(regions[a + 1].spec_contains(x) && regions[b + 1].spec_contains(x)));
        }
        lemma_region_unique(rest, addr, i - 1);
    }
}

/// The virtual address at which the direct map shows the physical address
/// `p`.
pub open spec fn direct_map_virt(p: u64) -> u64 {
    (p + PHYSICAL_MAP_OFFSET) as u64
}

/// The physical address that the direct map shows at `v`.
pub open spec fn direct_map_phys(v: u64) -> u64 {
    (v - PHYSICAL_MAP_OFFSET) as u64
}

/// Going to the direct map and back gives the physical address one began
/// with.
pub proof fn lemma_direct_map_identity(p: u64)
    requires
        p < DIRECT_MAP_SIZE,
    ensures
        direct_map_virt(p) >= PHYSICAL_MAP_OFFSET,
        direct_map_phys(direct_map_virt(p)) == p,
{
}

} // verus!
