//! Page-table entries and the four-level walk.
//!
//! A table is one page frame of 512 entries. The walk for a virtual address
//! starts at the root table and goes down three times, each time through
//! the entry that nine bits of the address select, to the table whose entry
//! is the leaf: the entry that maps the page.

use vstd::prelude::*;
use crate::mm::buddy::{
    BuddyState, lemma_alloc, lemma_alloc_page_frame, lemma_alloc_succeeds, lemma_take_pages,
    lemma_take_pages_add, page_free,
};
use crate::mm::memory::PhysMemory;
use crate::mm::pmm::{alloc_page, BuddyAllocator, PhysAddr};
use crate::mm::vmm::VirtAddr;

verus! {

/// The page is present in memory.
pub const PRESENT: u64 = 0x1;

/// The page can be written.
pub const WRITABLE: u64 = 0x2;

/// The page can be reached from user mode.
pub const USER: u64 = 0x4;

/// Writes go through to memory.
pub const WRITE_THROUGH: u64 = 0x8;

/// The page is not cached.
pub const NO_CACHE: u64 = 0x10;

/// The translation survives a switch of address space.
pub const GLOBAL: u64 = 0x100;

/// No instruction is fetched from the page.
pub const NO_EXEC: u64 = 0x8000_0000_0000_0000;

/// Kernel page, read only.
pub const KERNEL_RO: u64 = PRESENT | GLOBAL | NO_EXEC;

/// Kernel page, read and write.
pub const KERNEL_RW: u64 = PRESENT | WRITABLE | GLOBAL | NO_EXEC;

/// Kernel page, executable.
pub const KERNEL_EX: u64 = PRESENT | GLOBAL;

/// User page, read and write.
pub const USER_RW: u64 = PRESENT | WRITABLE | USER | NO_EXEC;

/// User page, executable.
pub const USER_EX: u64 = PRESENT | USER;

/// What the entry of a table on the way to a leaf has: present, writable
/// and open to user mode, so that the leaf alone decides what is allowed.
pub const TABLE_FLAGS: u64 = PRESENT | WRITABLE | USER;

/// Every bit that is a flag.
pub const ALL_FLAGS: u64 = 0x8000_0000_0000_011F;

/// The bits of an entry that hold the frame address.
pub const ADDR_MASK: u64 = 0x000F_FFFF_FFFF_F000;

/// A set of the flag bits above.
#[derive(Clone, Copy, Debug, PartialEq, Eq, Structural)]
pub struct PageFlags(u64);

impl PageFlags {
    /// The bits.
    pub closed spec fn view(&self) -> u64 {
        self.0
    }

    /// Only flag bits are set.
    pub open spec fn valid(&self) -> bool {
        self@ & !ALL_FLAGS == 0
    }

    /// The flags among `bits`; what is no flag is dropped.
    pub fn from_bits_truncate(bits: u64) -> (r: Self)
        ensures
            r@ == bits & ALL_FLAGS,
            r.valid(),
    {
        assert((bits & ALL_FLAGS) & !ALL_FLAGS == 0) by (bit_vector);
        Self(bits & ALL_FLAGS)
    }

    /// No flag.
    pub fn empty() -> (r: Self)
        ensures
            r@ == 0,
            r.valid(),
    {
        assert(0u64 & !ALL_FLAGS == 0) by (bit_vector);
        Self(0)
    }

    /// The flags as bits.
    pub fn bits(&self) -> (r: u64)
        ensures
            r == self@,
    {
        self.0
    }

    /// Whether every flag of `other` is among these.
    pub fn contains(&self, other: PageFlags) -> (r: bool)
        ensures
            r == (self@ & other@ == other@),
    {
        self.0 & other.0 == other.0
    }

    /// These flags and those of `other`.
    pub fn union(self, other: PageFlags) -> (r: Self)
        ensures
            r@ == self@ | other@,
            self.valid() && other.valid() ==> r.valid(),
    {
        let a = self.0;
        let b = other.0;
        assert(a & !ALL_FLAGS == 0 && b & !ALL_FLAGS == 0 ==> (a | b) & !ALL_FLAGS == 0)
            by (bit_vector);
        Self(self.0 | other.0)
    }

    /// The flag `PRESENT`.
    pub fn present() -> (r: Self)
        ensures
            r@ == PRESENT,
            r.valid(),
    {
        proof {
            lemma_flag_constants();
        }
        Self(PRESENT)
    }

    /// The flag `WRITABLE`.
    pub fn writable() -> (r: Self)
        ensures
            r@ == WRITABLE,
            r.valid(),
    {
        proof {
            lemma_flag_constants();
        }
        Self(WRITABLE)
    }

    /// The flag `USER`.
    pub fn user() -> (r: Self)
        ensures
            r@ == USER,
            r.valid(),
    {
        proof {
            lemma_flag_constants();
        }
        Self(USER)
    }

    /// The flag `WRITE_THROUGH`.
    pub fn write_through() -> (r: Self)
        ensures
            r@ == WRITE_THROUGH,
            r.valid(),
    {
        proof {
            lemma_flag_constants();
        }
        Self(WRITE_THROUGH)
    }

    /// The flag `NO_CACHE`.
    pub fn no_cache() -> (r: Self)
        ensures
            r@ == NO_CACHE,
            r.valid(),
    {
        proof {
            lemma_flag_constants();
        }
        Self(NO_CACHE)
    }

    /// The flag `GLOBAL`.
    pub fn global() -> (r: Self)
        ensures
            r@ == GLOBAL,
            r.valid(),
    {
        proof {
            lemma_flag_constants();
        }
        Self(GLOBAL)
    }

    /// The flag `NO_EXEC`.
    pub fn no_exec() -> (r: Self)
        ensures
            r@ == NO_EXEC,
            r.valid(),
    {
        proof {
            lemma_flag_constants();
        }
        Self(NO_EXEC)
    }

    /// The flags of a kernel page that is read only.
    pub fn kernel_ro() -> (r: Self)
        ensures
            r@ == KERNEL_RO,
            r.valid(),
    {
        proof {
            lemma_flag_constants();
        }
        Self(KERNEL_RO)
    }

    /// The flags of a kernel page for reading and writing.
    pub fn kernel_rw() -> (r: Self)
        ensures
            r@ == KERNEL_RW,
            r.valid(),
    {
        proof {
            lemma_flag_constants();
        }
        Self(KERNEL_RW)
    }

    /// The flags of a kernel page that holds code.
    pub fn kernel_ex() -> (r: Self)
        ensures
            r@ == KERNEL_EX,
            r.valid(),
    {
        proof {
            lemma_flag_constants();
        }
        Self(KERNEL_EX)
    }

    /// The flags of a user page for reading and writing.
    pub fn user_rw() -> (r: Self)
        ensures
            r@ == USER_RW,
            r.valid(),
    {
        proof {
            lemma_flag_constants();
        }
        Self(USER_RW)
    }

    /// The flags of a user page that holds code.
    pub fn user_ex() -> (r: Self)
        ensures
            r@ == USER_EX,
            r.valid(),
    {
        proof {
            lemma_flag_constants();
        }
        Self(USER_EX)
    }
}

/// Each named constant holds flag bits only.
pub proof fn lemma_flag_constants()
    ensures
        PRESENT & !ALL_FLAGS == 0,
        WRITABLE & !ALL_FLAGS == 0,
        USER & !ALL_FLAGS == 0,
        WRITE_THROUGH & !ALL_FLAGS == 0,
        NO_CACHE & !ALL_FLAGS == 0,
        GLOBAL & !ALL_FLAGS == 0,
        NO_EXEC & !ALL_FLAGS == 0,
        KERNEL_RO & !ALL_FLAGS == 0,
        KERNEL_RW & !ALL_FLAGS == 0,
        KERNEL_EX & !ALL_FLAGS == 0,
        USER_RW & !ALL_FLAGS == 0,
        USER_EX & !ALL_FLAGS == 0,
        (PRESENT | WRITABLE | USER) & !ALL_FLAGS == 0,
        (PRESENT | WRITABLE | USER) & PRESENT != 0,
        USER_RW & WRITABLE == WRITABLE,
        KERNEL_RW & WRITABLE == WRITABLE,
{
    assert(PRESENT & !ALL_FLAGS == 0 && WRITABLE & !ALL_FLAGS == 0 && USER & !ALL_FLAGS == 0
        && WRITE_THROUGH & !ALL_FLAGS == 0 && NO_CACHE & !ALL_FLAGS == 0 && GLOBAL & !ALL_FLAGS
        == 0 && NO_EXEC & !ALL_FLAGS == 0 && KERNEL_RO & !ALL_FLAGS == 0 && KERNEL_RW & !ALL_FLAGS
        == 0 && KERNEL_EX & !ALL_FLAGS == 0 && USER_RW & !ALL_FLAGS == 0 && USER_EX & !ALL_FLAGS
        == 0 && (PRESENT | WRITABLE | USER) & !ALL_FLAGS == 0 && (PRESENT | WRITABLE | USER)
        & PRESENT != 0 && USER_RW & WRITABLE == WRITABLE && KERNEL_RW & WRITABLE == WRITABLE)
        by (bit_vector);
}

/// Whether the entry `e` is present.
pub open spec fn pte_present(e: u64) -> bool {
    e & PRESENT != 0
}

/// The frame address that the entry `e` holds.
pub open spec fn pte_addr(e: u64) -> u64 {
    e & ADDR_MASK
}

/// The entry for the frame at `phys` with the flag bits `flags`.
pub open spec fn pte_new(phys: u64, flags: u64) -> u64 {
    (phys & !0xFFFu64) | flags
}

/// What an entry built from a frame address and flags gives back.
pub proof fn lemma_pte_new(phys: u64, flags: u64)
    ensures
        pte_present(pte_new(phys, flags)) == (flags & PRESENT != 0),
        (phys % 4096 == 0 && phys < 0x10_0000_0000_0000 && flags & !ALL_FLAGS == 0) ==> pte_addr(
            pte_new(phys, flags),
        ) == phys && pte_new(phys, flags) & ALL_FLAGS == flags,
        pte_addr(pte_new(phys, flags)) % 4096 == 0,
        pte_addr(pte_new(phys, flags)) < 0x10_0000_0000_0000,
        pte_new(0, 0) == 0,
        !pte_present(0),
{
    assert(((((phys & !0xFFFu64) | flags) & 1 != 0) == (flags & 1 != 0)) && ((phys % 4096 == 0
        && phys < 0x10_0000_0000_0000 && flags & !0x8000_0000_0000_011Fu64 == 0) ==> (((phys
        & !0xFFFu64) | flags) & 0x000F_FFFF_FFFF_F000u64 == phys && ((phys & !0xFFFu64) | flags)
        & 0x8000_0000_0000_011Fu64 == flags)) && ((((phys & !0xFFFu64) | flags)
        & 0x000F_FFFF_FFFF_F000u64) % 4096 == 0) && ((((phys & !0xFFFu64) | flags)
        & 0x000F_FFFF_FFFF_F000u64) < 0x10_0000_0000_0000) && (((0u64 & !0xFFFu64) | 0u64) == 0)
        && (0u64 & 1 == 0)) by (bit_vector);
}

/// The address in any entry is a page boundary below `2^52`.
pub proof fn lemma_pte_addr(e: u64)
    ensures
        pte_addr(e) % 4096 == 0,
        pte_addr(e) < 0x10_0000_0000_0000,
{
    assert((e & 0x000F_FFFF_FFFF_F000u64) % 4096 == 0 && (e & 0x000F_FFFF_FFFF_F000u64)
        < 0x10_0000_0000_0000) by (bit_vector);
}

/// One page-table entry.
#[derive(Clone, Copy, Debug, PartialEq, Eq, Structural)]
pub struct PageTableEntry(pub u64);

impl PageTableEntry {
    /// The entry for the frame at `phys` with `flags`; the low twelve bits
    /// of `phys` are dropped.
    pub fn new(phys: PhysAddr, flags: PageFlags) -> (r: Self)
        ensures
            r.0 == pte_new(phys.0, flags@),
    {
        Self((phys.as_u64() & !0xFFF) | flags.bits())
    }

    /// Whether the entry is present.
    pub fn is_present(self) -> (r: bool)
        ensures
            r == pte_present(self.0),
    {
        self.0 & PRESENT != 0
    }

    /// The frame address that the entry holds.
    pub fn phys_addr(self) -> (r: PhysAddr)
        ensures
            r.0 == pte_addr(self.0),
    {
        PhysAddr::new(self.0 & 0x000F_FFFF_FFFF_F000)
    }

    /// The flags that the entry holds.
    pub fn flags(self) -> (r: PageFlags)
        ensures
            r@ == self.0 & ALL_FLAGS,
            r.valid(),
    {
        PageFlags::from_bits_truncate(self.0)
    }
}

/// The nine bits of `v` that select the entry at `depth`: depth 0 is the
/// root table, depth 3 the table of leaves.
pub open spec fn table_index(depth: nat, v: u64) -> nat {
    if depth == 0 {
        ((v >> 39) & 0x1FF) as nat
    } else if depth == 1 {
        ((v >> 30) & 0x1FF) as nat
    } else if depth == 2 {
        ((v >> 21) & 0x1FF) as nat
    } else {
        ((v >> 12) & 0x1FF) as nat
    }
}

/// An index has nine bits.
pub proof fn lemma_table_index_bound(depth: nat, v: u64)
    ensures
        table_index(depth, v) < 512,
{
    assert((v >> 39) & 0x1FF < 512 && (v >> 30) & 0x1FF < 512 && (v >> 21) & 0x1FF < 512 && (v
        >> 12) & 0x1FF < 512) by (bit_vector);
}

/// Whether the walks for `a` and `b` take the same entries at the first
/// `depth` tables.
pub open spec fn same_prefix(depth: nat, a: u64, b: u64) -> bool {
    &&& depth >= 1 ==> table_index(0, a) == table_index(0, b)
    &&& depth >= 2 ==> table_index(1, a) == table_index(1, b)
    &&& depth >= 3 ==> table_index(2, a) == table_index(2, b)
    &&& depth >= 4 ==> table_index(3, a) == table_index(3, b)
}

/// Whether `a` and `b` lie in the same page as the walk sees it: bits 12 to
/// 47 agree.
pub open spec fn same_page(a: u64, b: u64) -> bool {
    same_prefix(4, a, b)
}

/// Index into the root table.
pub fn pml4_idx(addr: VirtAddr) -> (r: usize)
    ensures
        r == table_index(0, addr.0),
        r < 512,
{
    proof {
        lemma_table_index_bound(0, addr.0);
    }
    ((addr.as_u64() >> 39) & 0x1FF) as usize
}

/// Index into the table at depth 1.
pub fn pdpt_idx(addr: VirtAddr) -> (r: usize)
    ensures
        r == table_index(1, addr.0),
        r < 512,
{
    proof {
        lemma_table_index_bound(1, addr.0);
    }
    ((addr.as_u64() >> 30) & 0x1FF) as usize
}

/// Index into the table at depth 2.
pub fn pd_idx(addr: VirtAddr) -> (r: usize)
    ensures
        r == table_index(2, addr.0),
        r < 512,
{
    proof {
        lemma_table_index_bound(2, addr.0);
    }
    ((addr.as_u64() >> 21) & 0x1FF) as usize
}

/// Index into the table of leaves.
pub fn pt_idx(addr: VirtAddr) -> (r: usize)
    ensures
        r == table_index(3, addr.0),
        r < 512,
{
    proof {
        lemma_table_index_bound(3, addr.0);
    }
    ((addr.as_u64() >> 12) & 0x1FF) as usize
}

/// The entry `idx` of the table at `table`.
pub open spec fn entry_at(mem: &PhysMemory, table: int, idx: nat) -> u64 {
    mem.word(table + 8 * idx)
}

/// The table that the walk for `v` reaches at `depth`, if every entry on
/// the way is present.
pub open spec fn table_at(mem: &PhysMemory, root: int, depth: nat, v: u64) -> Option<int>
    decreases depth,
{
    if depth == 0 {
        Some(root)
    } else {
        match table_at(mem, root, (depth - 1) as nat, v) {
            Some(t) => {
                let e = entry_at(mem, t, table_index((depth - 1) as nat, v));
                if pte_present(e) {
                    Some(pte_addr(e) as int)
                } else {
                    None
                }
            },
            None => None,
        }
    }
}

/// The leaf entry for `v`, if the walk reaches it and it is present.
pub open spec fn leaf(mem: &PhysMemory, root: int, v: u64) -> Option<u64> {
    match table_at(mem, root, 3, v) {
        Some(t) => {
            let e = entry_at(mem, t, table_index(3, v));
            if pte_present(e) {
                Some(e)
            } else {
                None
            }
        },
        None => None,
    }
}

/// The physical address that `v` translates to.
pub open spec fn translation(mem: &PhysMemory, root: int, v: u64) -> Option<int> {
    match leaf(mem, root, v) {
        Some(e) => Some(pte_addr(e) + (v & 0xFFF)),
        None => None,
    }
}

/// Whether the frame at `frame` is one of the tables under `root`.
pub open spec fn is_table(mem: &PhysMemory, root: int, frame: int) -> bool {
    exists|d: nat, v: u64| d <= 3 && #[trigger] table_at(mem, root, d, v) == Some(frame)
}

/// Every table under `root` is a frame of the memory.
pub open spec fn tables_in_memory(mem: &PhysMemory, root: int) -> bool {
    &&& mem.contains_frame(root)
    &&& forall|d: nat, v: u64|
        d <= 3 && (#[trigger] table_at(mem, root, d, v)).is_some() ==> mem.contains_frame(
            table_at(mem, root, d, v).unwrap(),
        )
}

/// No frame is reached as a table by two different paths.
pub open spec fn tables_distinct(mem: &PhysMemory, root: int) -> bool {
    forall|d1: nat, v1: u64, d2: nat, v2: u64|
        d1 <= 3 && d2 <= 3 && (#[trigger] table_at(mem, root, d1, v1)).is_some() && table_at(
            mem,
            root,
            d1,
            v1,
        ) == #[trigger] table_at(mem, root, d2, v2) ==> d1 == d2 && same_prefix(d1, v1, v2)
}

/// The tables under `root` lie in memory and form a tree.
pub open spec fn tables_wf(mem: &PhysMemory, root: int) -> bool {
    tables_in_memory(mem, root) && tables_distinct(mem, root)
}

/// The base of the page frame that holds `addr`.
pub open spec fn frame_base(addr: int) -> int {
    addr - addr % 4096
}

/// No table under `root` is a frame that `pmm` holds as free.
pub open spec fn tables_in_use(mem: &PhysMemory, root: int, pmm: BuddyState) -> bool {
    forall|d: nat, v: u64|
        d <= 3 && (#[trigger] table_at(mem, root, d, v)).is_some() ==> !pmm.frame_is_free(
            table_at(mem, root, d, v).unwrap(),
        )
}

/// The words that differ between `before` and `after` lie in frames that
/// were free in `pmm` or in tables under `root`.
pub open spec fn changed_within(
    before: &PhysMemory,
    after: &PhysMemory,
    root: int,
    pmm: BuddyState,
) -> bool {
    &&& after.base() == before.base()
    &&& after.size() == before.size()
    &&& forall|a: int|
        before.contains_word(a) && #[trigger] after.word(a) != before.word(a) ==> pmm.frame_is_free(
            frame_base(a),
        ) || is_table(before, root, frame_base(a))
}

/// Where an entry of a table lies.
pub proof fn lemma_entry_addr(mem: &PhysMemory, t: int, idx: nat)
    requires
        mem.contains_frame(t),
        idx < 512,
    ensures
        frame_base(t + 8 * idx) == t,
        mem.contains_word(t + 8 * idx),
        t <= t + 8 * idx < t + 4096,
{
}

/// The walk to `depth` reads nothing that differs between two memories
/// which agree on every table of the first.
pub proof fn lemma_walk_same(m1: &PhysMemory, m2: &PhysMemory, root: int, depth: nat, v: u64)
    requires
        tables_in_memory(m1, root),
        m2.base() == m1.base(),
        m2.size() == m1.size(),
        forall|a: int|
            m1.contains_word(a) && #[trigger] m2.word(a) != m1.word(a) ==> !is_table(
                m1,
                root,
                frame_base(a),
            ),
        depth <= 3,
    ensures
        table_at(m2, root, depth, v) == table_at(m1, root, depth, v),
        table_at(m1, root, depth, v).is_some() ==> entry_at(
            m2,
            table_at(m1, root, depth, v).unwrap(),
            table_index(depth, v),
        ) == entry_at(m1, table_at(m1, root, depth, v).unwrap(), table_index(depth, v)),
    decreases depth,
{
    if depth > 0 {
        lemma_walk_same(m1, m2, root, (depth - 1) as nat, v);
    }
    if table_at(m1, root, depth, v).is_some() {
        let t = table_at(m1, root, depth, v).unwrap();
        lemma_table_index_bound(depth, v);
        lemma_entry_addr(m1, t, table_index(depth, v));
        let a = t + 8 * table_index(depth, v);
        assert(is_table(m1, root, frame_base(a)));
    }
}

/// Two memories that agree on every table of the first have the same
/// tables and the same translations.
pub proof fn lemma_tables_same(m1: &PhysMemory, m2: &PhysMemory, root: int)
    requires
        tables_wf(m1, root),
        m2.base() == m1.base(),
        m2.size() == m1.size(),
        forall|a: int|
            m1.contains_word(a) && #[trigger] m2.word(a) != m1.word(a) ==> !is_table(
                m1,
                root,
                frame_base(a),
            ),
    ensures
        tables_wf(m2, root),
        forall|d: nat, v: u64|
            d <= 3 ==> #[trigger] table_at(m2, root, d, v) == table_at(m1, root, d, v),
        forall|v: u64| #[trigger] leaf(m2, root, v) == leaf(m1, root, v),
        forall|f: int| is_table(m2, root, f) == is_table(m1, root, f),
{
    assert forall|d: nat, v: u64| d <= 3 implies #[trigger] table_at(m2, root, d, v) == table_at(
        m1,
        root,
        d,
        v,
    ) by {
        lemma_walk_same(m1, m2, root, d, v);
    }
    assert forall|v: u64| #[trigger] leaf(m2, root, v) == leaf(m1, root, v) by {
        lemma_walk_same(m1, m2, root, 3, v);
    }
    assert forall|f: int| is_table(m2, root, f) == is_table(m1, root, f) by {
        if is_table(m2, root, f) {
            let (d, v) = choose|d: nat, v: u64|
                d <= 3 && #[trigger] table_at(m2, root, d, v) == Some(f);
            assert(table_at(m1, root, d, v) == Some(f));
        }
        if is_table(m1, root, f) {
            let (d, v) = choose|d: nat, v: u64|
                d <= 3 && #[trigger] table_at(m1, root, d, v) == Some(f);
            assert(table_at(m2, root, d, v) == Some(f));
        }
    }
}

/// Walks that take the same entries reach the same table.
pub proof fn lemma_prefix_walk(mem: &PhysMemory, root: int, depth: nat, a: u64, b: u64)
    requires
        depth <= 4,
        same_prefix(depth, a, b),
    ensures
        table_at(mem, root, depth, a) == table_at(mem, root, depth, b),
    decreases depth,
{
    if depth > 0 {
        lemma_prefix_walk(mem, root, (depth - 1) as nat, a, b);
    }
}

/// Whether `after` is `before` with the word at `slot` set to `e`.
pub open spec fn wrote(before: &PhysMemory, after: &PhysMemory, slot: int, e: u64) -> bool {
    after.same_outside(before, slot, slot + 8) && after.word(slot) == e
}

/// What the walk reads after one entry has been written: everything is as
/// before but the entry itself.
pub proof fn lemma_walk_after_write(
    m1: &PhysMemory,
    m2: &PhysMemory,
    root: int,
    d: nat,
    v0: u64,
    e: u64,
    dd: nat,
    v: u64,
)
    requires
        tables_wf(m1, root),
        d <= 3,
        dd <= 3,
        table_at(m1, root, d, v0).is_some(),
        wrote(m1, m2, table_at(m1, root, d, v0).unwrap() + 8 * table_index(d, v0), e),
        dd <= d || !same_prefix(d + 1, v, v0),
    ensures
        table_at(m2, root, dd, v) == table_at(m1, root, dd, v),
        table_at(m1, root, dd, v).is_some() ==> entry_at(
            m2,
            table_at(m1, root, dd, v).unwrap(),
            table_index(dd, v),
        ) == (if dd == d && same_prefix(d + 1, v, v0) {
            e
        } else {
            entry_at(m1, table_at(m1, root, dd, v).unwrap(), table_index(dd, v))
        }),
    decreases dd,
{
    let t = table_at(m1, root, d, v0).unwrap();
    let slot = t + 8 * table_index(d, v0);
    lemma_table_index_bound(d, v0);
    lemma_entry_addr(m1, t, table_index(d, v0));
    if dd > 0 {
        lemma_walk_after_write(m1, m2, root, d, v0, e, (dd - 1) as nat, v);
        let up = table_at(m1, root, (dd - 1) as nat, v);
        if up.is_some() {
            // the entry read at depth dd - 1 is not the one written
            assert(!(dd - 1 == d && same_prefix(d + 1, v, v0)));
        }
    }
    if table_at(m1, root, dd, v).is_some() {
        let tt = table_at(m1, root, dd, v).unwrap();
        lemma_table_index_bound(dd, v);
        lemma_entry_addr(m1, tt, table_index(dd, v));
        let a = tt + 8 * table_index(dd, v);
        if a == slot {
            assert(tt == t);
            assert(table_at(m1, root, dd, v) == table_at(m1, root, d, v0));
            assert(dd == d && same_prefix(d, v, v0));
            assert(table_index(dd, v) == table_index(d, v0));
            assert(same_prefix(d + 1, v, v0));
        } else {
            assert(m2.word(a) == m1.word(a));
            if dd == d && same_prefix(d + 1, v, v0) {
                lemma_prefix_walk(m1, root, d, v, v0);
                assert(false);
            }
        }
    }
}

/// Putting a fresh, empty table under an entry that was not present adds
/// that table to the tree and changes no translation.
pub proof fn lemma_install_table(
    m1: &PhysMemory,
    m2: &PhysMemory,
    root: int,
    d: nat,
    v0: u64,
    e: u64,
)
    requires
        tables_wf(m1, root),
        d <= 2,
        table_at(m1, root, d, v0).is_some(),
        wrote(m1, m2, table_at(m1, root, d, v0).unwrap() + 8 * table_index(d, v0), e),
        !pte_present(entry_at(m1, table_at(m1, root, d, v0).unwrap(), table_index(d, v0))),
        pte_present(e),
        m1.contains_frame(pte_addr(e) as int),
        !is_table(m1, root, pte_addr(e) as int),
        forall|i: nat| i < 512 ==> !pte_present(#[trigger] entry_at(m1, pte_addr(e) as int, i)),
    ensures
        tables_wf(m2, root),
        table_at(m2, root, d + 1, v0) == Some(pte_addr(e) as int),
        forall|dd: nat, v: u64|
            dd <= 3 ==> #[trigger] table_at(m2, root, dd, v) == (if same_prefix(d + 1, v, v0) && dd
                > d {
                if dd == d + 1 {
                    Some(pte_addr(e) as int)
                } else {
                    None
                }
            } else {
                table_at(m1, root, dd, v)
            }),
        forall|v: u64| #[trigger] leaf(m2, root, v) == leaf(m1, root, v),
        forall|x: int| is_table(m2, root, x) <==> (is_table(m1, root, x) || x == pte_addr(e)),
{
    let t = table_at(m1, root, d, v0).unwrap();
    let slot = t + 8 * table_index(d, v0);
    let f = pte_addr(e) as int;
    lemma_table_index_bound(d, v0);
    lemma_entry_addr(m1, t, table_index(d, v0));
    assert(is_table(m1, root, t));
    assert(t != f);
    // the entries of the new table are what they were
    assert forall|i: nat| i < 512 implies !pte_present(#[trigger] entry_at(m2, f, i)) by {
        lemma_entry_addr(m1, f, i);
        assert(entry_at(m2, f, i) == entry_at(m1, f, i));
    }
    assert forall|dd: nat, v: u64| dd <= 3 implies #[trigger] table_at(m2, root, dd, v) == (
    if same_prefix(d + 1, v, v0) && dd > d {
        if dd == d + 1 {
            Some(f)
        } else {
            None
        }
    } else {
        table_at(m1, root, dd, v)
    }) by {
        lemma_install_walk(m1, m2, root, d, v0, e, dd, v);
    }
    assert forall|v: u64| #[trigger] leaf(m2, root, v) == leaf(m1, root, v) by {
        lemma_install_walk(m1, m2, root, d, v0, e, 3, v);
        lemma_table_index_bound(3, v);
        if same_prefix(d + 1, v, v0) {
            lemma_prefix_walk(m1, root, d, v, v0);
            lemma_install_walk(m1, m2, root, d, v0, e, d + 1, v);
            lemma_walk_none_below(m1, root, d + 1, 3, v);
        } else {
            lemma_walk_after_write(m1, m2, root, d, v0, e, 3, v);
        }
    }
    assert forall|x: int| is_table(m2, root, x) <==> (is_table(m1, root, x) || x == f) by {
        if is_table(m2, root, x) {
            let (dd, v) = choose|dd: nat, v: u64|
                dd <= 3 && #[trigger] table_at(m2, root, dd, v) == Some(x);
            if !(same_prefix(d + 1, v, v0) && dd > d) {
                assert(table_at(m1, root, dd, v) == Some(x));
            }
        }
        if is_table(m1, root, x) {
            let (dd, v) = choose|dd: nat, v: u64|
                dd <= 3 && #[trigger] table_at(m1, root, dd, v) == Some(x);
            if same_prefix(d + 1, v, v0) && dd > d {
                lemma_prefix_walk(m1, root, d, v, v0);
                lemma_walk_none_below(m1, root, d + 1, dd, v);
            }
            assert(table_at(m2, root, dd, v) == Some(x));
        }
        if x == f {
            assert(table_at(m2, root, d + 1, v0) == Some(x));
        }
    }
    assert(tables_in_memory(m2, root));
    assert forall|d1: nat, v1: u64, d2: nat, v2: u64|
        d1 <= 3 && d2 <= 3 && (#[trigger] table_at(m2, root, d1, v1)).is_some() && table_at(
            m2,
            root,
            d1,
            v1,
        ) == #[trigger] table_at(m2, root, d2, v2) implies d1 == d2 && same_prefix(d1, v1, v2) by {
        let new1 = same_prefix(d + 1, v1, v0) && d1 > d;
        let new2 = same_prefix(d + 1, v2, v0) && d2 > d;
        if new1 && !new2 {
            assert(is_table(m1, root, f));
        } else if !new1 && new2 {
            assert(table_at(m1, root, d1, v1) == Some(f));
            assert(is_table(m1, root, f));
        } else if !new1 && !new2 {
            assert(table_at(m1, root, d1, v1) == table_at(m1, root, d2, v2));
        }
    }
}

/// Below a table that the walk does not reach, it reaches none.
pub proof fn lemma_walk_none_below(mem: &PhysMemory, root: int, d: nat, dd: nat, v: u64)
    requires
        d <= dd,
        table_at(mem, root, d, v).is_none(),
    ensures
        table_at(mem, root, dd, v).is_none(),
    decreases dd,
{
    if dd > d {
        lemma_walk_none_below(mem, root, d, (dd - 1) as nat, v);
    }
}

/// The walk for `v` after a fresh, empty table has been put at depth
/// `d + 1` on the walk for `v0`.
pub proof fn lemma_install_walk(
    m1: &PhysMemory,
    m2: &PhysMemory,
    root: int,
    d: nat,
    v0: u64,
    e: u64,
    dd: nat,
    v: u64,
)
    requires
        tables_wf(m1, root),
        d <= 2,
        dd <= 3,
        table_at(m1, root, d, v0).is_some(),
        wrote(m1, m2, table_at(m1, root, d, v0).unwrap() + 8 * table_index(d, v0), e),
        !pte_present(entry_at(m1, table_at(m1, root, d, v0).unwrap(), table_index(d, v0))),
        pte_present(e),
        m1.contains_frame(pte_addr(e) as int),
        !is_table(m1, root, pte_addr(e) as int),
        forall|i: nat| i < 512 ==> !pte_present(#[trigger] entry_at(m2, pte_addr(e) as int, i)),
    ensures
        table_at(m2, root, dd, v) == (if same_prefix(d + 1, v, v0) && dd > d {
            if dd == d + 1 {
                Some(pte_addr(e) as int)
            } else {
                None
            }
        } else {
            table_at(m1, root, dd, v)
        }),
    decreases dd,
{
    if same_prefix(d + 1, v, v0) && dd > d {
        if dd == d + 1 {
            lemma_walk_after_write(m1, m2, root, d, v0, e, d, v);
            lemma_prefix_walk(m1, root, d, v, v0);
        } else {
            lemma_install_walk(m1, m2, root, d, v0, e, (dd - 1) as nat, v);
            if dd - 1 == d + 1 {
                lemma_table_index_bound((dd - 1) as nat, v);
            }
        }
    } else {
        lemma_walk_after_write(m1, m2, root, d, v0, e, dd, v);
    }
}

/// Writing a leaf entry changes the translation of its page and nothing
/// else.
pub proof fn lemma_write_leaf(m1: &PhysMemory, m2: &PhysMemory, root: int, v0: u64, e: u64)
    requires
        tables_wf(m1, root),
        table_at(m1, root, 3, v0).is_some(),
        wrote(m1, m2, table_at(m1, root, 3, v0).unwrap() + 8 * table_index(3, v0), e),
    ensures
        tables_wf(m2, root),
        forall|dd: nat, v: u64|
            dd <= 3 ==> #[trigger] table_at(m2, root, dd, v) == table_at(m1, root, dd, v),
        forall|v: u64| #[trigger]
            leaf(m2, root, v) == (if same_page(v, v0) {
                if pte_present(e) {
                    Some(e)
                } else {
                    None
                }
            } else {
                leaf(m1, root, v)
            }),
        forall|x: int| is_table(m2, root, x) <==> is_table(m1, root, x),
{
    assert forall|dd: nat, v: u64| dd <= 3 implies #[trigger] table_at(m2, root, dd, v)
        == table_at(m1, root, dd, v) by {
        lemma_walk_after_write(m1, m2, root, 3, v0, e, dd, v);
    }
    assert forall|v: u64| #[trigger]
        leaf(m2, root, v) == (if same_page(v, v0) {
            if pte_present(e) {
                Some(e)
            } else {
                None
            }
        } else {
            leaf(m1, root, v)
        }) by {
        lemma_walk_after_write(m1, m2, root, 3, v0, e, 3, v);
        if same_page(v, v0) {
            lemma_prefix_walk(m1, root, 3, v, v0);
        }
    }
    assert forall|x: int| is_table(m2, root, x) <==> is_table(m1, root, x) by {
        if is_table(m2, root, x) {
            let (dd, v) = choose|dd: nat, v: u64|
                dd <= 3 && #[trigger] table_at(m2, root, dd, v) == Some(x);
            assert(table_at(m1, root, dd, v) == Some(x));
        }
        if is_table(m1, root, x) {
            let (dd, v) = choose|dd: nat, v: u64|
                dd <= 3 && #[trigger] table_at(m1, root, dd, v) == Some(x);
            assert(table_at(m2, root, dd, v) == Some(x));
        }
    }
    assert forall|d1: nat, v1: u64, d2: nat, v2: u64|
        d1 <= 3 && d2 <= 3 && (#[trigger] table_at(m2, root, d1, v1)).is_some() && table_at(
            m2,
            root,
            d1,
            v1,
        ) == #[trigger] table_at(m2, root, d2, v2) implies d1 == d2 && same_prefix(d1, v1, v2) by {
        assert(table_at(m1, root, d1, v1) == table_at(m1, root, d2, v2));
    }
}

/// The frame that holds an address between a page boundary and the next.
pub proof fn lemma_frame_base(frame: int, a: int)
    requires
        frame % 4096 == 0,
        frame <= a < frame + 4096,
    ensures
        frame_base(a) == frame,
{
}

/// The entry that the walk for `v` takes at `depth`, where it gets there.
pub open spec fn link_entry(mem: &PhysMemory, root: int, depth: nat, v: u64) -> u64 {
    entry_at(mem, table_at(mem, root, depth, v).unwrap(), table_index(depth, v))
}

/// Whether `after` differs from `before` at most in the word at `slot` and
/// in the words from `lo` up to `hi`.
pub open spec fn only_changed(
    before: &PhysMemory,
    after: &PhysMemory,
    slot: int,
    lo: int,
    hi: int,
) -> bool {
    &&& after.base() == before.base()
    &&& after.size() == before.size()
    &&& forall|a: int|
        before.contains_word(a) && #[trigger] after.word(a) != before.word(a) ==> a == slot || lo
            <= a < hi
}

/// An entry on a walk stays as it is when what changes is an entry of
/// another table on the walk, or a frame that is no table.
pub proof fn lemma_link_kept(
    m1: &PhysMemory,
    m2: &PhysMemory,
    root: int,
    d: nat,
    d2: nat,
    v: u64,
    lo: int,
    hi: int,
)
    requires
        tables_wf(m1, root),
        d <= 3,
        d2 <= 3,
        d != d2,
        table_at(m1, root, d, v).is_some(),
        table_at(m1, root, d2, v).is_some(),
        only_changed(
            m1,
            m2,
            table_at(m1, root, d2, v).unwrap() + 8 * table_index(d2, v),
            lo,
            hi,
        ),
        lo == hi || (hi == lo + 4096 && lo % 4096 == 0 && !is_table(m1, root, lo)),
    ensures
        entry_at(m2, table_at(m1, root, d, v).unwrap(), table_index(d, v)) == link_entry(
            m1,
            root,
            d,
            v,
        ),
{
    let t = table_at(m1, root, d, v).unwrap();
    let t2 = table_at(m1, root, d2, v).unwrap();
    lemma_table_index_bound(d, v);
    lemma_table_index_bound(d2, v);
    lemma_entry_addr(m1, t, table_index(d, v));
    lemma_entry_addr(m1, t2, table_index(d2, v));
    assert(t != t2);
    assert(is_table(m1, root, t));
    let a = t + 8 * table_index(d, v);
    if lo <= a < hi {
        lemma_frame_base(lo, a);
    }
}

/// Memory, tables and allocator fit together: the tables under `root` form
/// a tree in memory, none of them is a frame that the allocator holds as
/// free, and every frame that it does hold as free lies in memory.
pub open spec fn space_ok(mem: &PhysMemory, root: int, pmm: BuddyState) -> bool {
    &&& mem.wf()
    &&& pmm.wf()
    &&& tables_wf(mem, root)
    &&& tables_in_use(mem, root, pmm)
    &&& mem.backs(pmm)
}

/// How many tables the walk for `v` lacks on its way to the leaf.
pub open spec fn missing_tables(mem: &PhysMemory, root: int, v: u64) -> nat {
    if table_at(mem, root, 1, v).is_none() {
        3
    } else if table_at(mem, root, 2, v).is_none() {
        2
    } else if table_at(mem, root, 3, v).is_none() {
        1
    } else {
        0
    }
}

/// Reads entry `idx` of the table at `table`.
pub fn read_entry(mem: &PhysMemory, table: PhysAddr, idx: usize) -> (r: PageTableEntry)
    requires
        mem.wf(),
        mem.contains_frame(table.0 as int),
        idx < 512,
    ensures
        r.0 == entry_at(mem, table.0 as int, idx as nat),
{
    proof {
        lemma_entry_addr(mem, table.0 as int, idx as nat);
    }
    PageTableEntry(mem.read(PhysAddr::new(table.0 + 8 * (idx as u64))))
}

/// Index of the entry that the walk for `virt` takes at `depth`.
pub fn index_at(depth: usize, virt: VirtAddr) -> (r: usize)
    requires
        depth <= 3,
    ensures
        r == table_index(depth as nat, virt.0),
        r < 512,
{
    if depth == 0 {
        pml4_idx(virt)
    } else if depth == 1 {
        pdpt_idx(virt)
    } else if depth == 2 {
        pd_idx(virt)
    } else {
        pt_idx(virt)
    }
}

/// How many of the tables at the depths from 1 to `upto` the walk for `v`
/// lacks.
pub open spec fn missing_upto(mem: &PhysMemory, root: int, v: u64, upto: nat) -> nat
    decreases upto,
{
    if upto == 0 {
        0
    } else {
        missing_upto(mem, root, v, (upto - 1) as nat) + (if table_at(mem, root, upto, v).is_none() {
            1nat
        } else {
            0nat
        })
    }
}

/// The tables that a walk lacks are those at the three depths below the
/// root.
pub proof fn lemma_missing_is_count(mem: &PhysMemory, root: int, v: u64)
    ensures
        missing_tables(mem, root, v) == missing_upto(mem, root, v, 3),
        forall|k: nat| k <= 3 ==> #[trigger] missing_upto(mem, root, v, k) <= k,
        forall|k: nat|
            1 <= k <= 3 && table_at(mem, root, k, v).is_none() ==> #[trigger] missing_upto(
                mem,
                root,
                v,
                (k - 1) as nat,
            ) < missing_tables(mem, root, v),
{
    reveal_with_fuel(missing_upto, 4);
    if table_at(mem, root, 1, v).is_none() {
        lemma_walk_none_below(mem, root, 1, 2, v);
        lemma_walk_none_below(mem, root, 1, 3, v);
    }
    if table_at(mem, root, 2, v).is_none() {
        lemma_walk_none_below(mem, root, 2, 3, v);
    }
    assert(missing_upto(mem, root, v, 0) == 0);
}

/// Whether the tables in `after` are those in `before` and, where `before`
/// had none, those on the walk for `v` down to depth `upto`: a walk reaches
/// a table in `after` where it reached it in `before`, or where it goes
/// the way of `v`.
pub open spec fn tables_grew(
    before: &PhysMemory,
    after: &PhysMemory,
    root: int,
    v: u64,
    upto: nat,
) -> bool {
    forall|dd: nat, w: u64|
        dd <= 3 ==> #[trigger] table_at(after, root, dd, w) == (if table_at(
            before,
            root,
            dd,
            w,
        ).is_some() {
            table_at(before, root, dd, w)
        } else if dd <= upto && same_prefix(dd, w, v) {
            table_at(after, root, dd, v)
        } else {
            None
        })
}

/// Tables that have grown along a walk, and then one depth further or not
/// at all, have grown along the walk to that depth.
pub proof fn lemma_tables_grew_more(
    m0: &PhysMemory,
    m1: &PhysMemory,
    m2: &PhysMemory,
    root: int,
    v: u64,
    upto: nat,
)
    requires
        upto <= 2,
        tables_grew(m0, m1, root, v, upto),
        *m2 == *m1 || tables_grew(m1, m2, root, v, upto + 1),
    ensures
        tables_grew(m0, m2, root, v, upto + 1),
{
    assert forall|dd: nat, w: u64| dd <= 3 implies #[trigger] table_at(m2, root, dd, w) == (
    if table_at(m0, root, dd, w).is_some() {
        table_at(m0, root, dd, w)
    } else if dd <= upto + 1 && same_prefix(dd, w, v) {
        table_at(m2, root, dd, v)
    } else {
        None
    }) by {
        // what the walk for `w` reached before the last step
        let mid = table_at(m1, root, dd, w);
        assert(mid == (if table_at(m0, root, dd, w).is_some() {
            table_at(m0, root, dd, w)
        } else if dd <= upto && same_prefix(dd, w, v) {
            table_at(m1, root, dd, v)
        } else {
            None
        }));
        if dd <= upto + 1 && same_prefix(dd, w, v) {
            lemma_prefix_walk(m2, root, dd, w, v);
        }
    }
}

/// What one step down the walk for `v` does, from the table at `depth`:
/// where the next table is there, nothing; where it is not and a frame is
/// free, the frame is taken, zeroed and entered in the table, present,
/// writable and open to user mode; where no frame is free, nothing.
#[verifier::opaque]
pub open spec fn step_done(
    before: &PhysMemory,
    after: &PhysMemory,
    root: int,
    pmm_before: BuddyState,
    pmm_after: BuddyState,
    v: u64,
    depth: nat,
    r: Option<int>,
) -> bool {
    &&& space_ok(after, root, pmm_after)
    &&& forall|dd: nat|
        dd <= depth ==> #[trigger] table_at(after, root, dd, v) == table_at(before, root, dd, v)
    &&& match table_at(before, root, depth + 1, v) {
        Some(next) => r == Some(next) && pmm_after == pmm_before && *after == *before,
        None => match pmm_before.allocate(0) {
            None => r.is_none() && pmm_after == pmm_before && *after == *before,
            Some((frame, rest)) => {
                &&& r == Some(frame)
                &&& pmm_after == rest
                &&& table_at(after, root, depth + 1, v) == Some(frame)
                &&& forall|dd: nat|
                    depth + 1 < dd <= 3 ==> (#[trigger] table_at(after, root, dd, v)).is_none()
                &&& link_entry(after, root, depth, v) == pte_new(frame as u64, TABLE_FLAGS)
                &&& forall|i: nat| i < 512 ==> #[trigger] entry_at(after, frame, i) == 0
                &&& only_changed(
                    before,
                    after,
                    table_at(before, root, depth, v).unwrap() + 8 * table_index(depth, v),
                    frame,
                    frame + 4096,
                )
                &&& frame % 4096 == 0
                &&& pmm_before.frame_is_free(frame)
                &&& !is_table(before, root, frame)
                &&& same_leaves(before, after, root)
                &&& tables_grew(before, after, root, v, depth + 1)
                &&& forall|x: int| #[trigger]
                    is_table(after, root, x) <==> is_table(before, root, x) || x == frame
            },
        },
    }
}

/// What a fresh table under an entry that was not present comes to.
#[verifier::rlimit(60)]
pub proof fn lemma_table_made(
    m0: &PhysMemory,
    m1: &PhysMemory,
    m2: &PhysMemory,
    root: int,
    s0: BuddyState,
    v: u64,
    depth: nat,
)
    requires
        space_ok(m0, root, s0),
        depth <= 2,
        table_at(m0, root, depth, v).is_some(),
        table_at(m0, root, depth + 1, v).is_none(),
        s0.allocate(0).is_some(),
        m1.wf(),
        m2.wf(),
        m1.same_outside(m0, s0.allocate(0).unwrap().0, s0.allocate(0).unwrap().0 + 4096),
        forall|a: int|
            s0.allocate(0).unwrap().0 <= a < s0.allocate(0).unwrap().0 + 4096 && a % 8 == 0
                ==> #[trigger] m1.word(a) == 0,
        wrote(
            m1,
            m2,
            table_at(m0, root, depth, v).unwrap() + 8 * table_index(depth, v),
            pte_new(s0.allocate(0).unwrap().0 as u64, TABLE_FLAGS),
        ),
    ensures
        step_done(
            m0,
            m2,
            root,
            s0,
            s0.allocate(0).unwrap().1,
            v,
            depth,
            Some(s0.allocate(0).unwrap().0),
        ),
        m0.contains_frame(s0.allocate(0).unwrap().0),
        s0.allocate(0).unwrap().0 < 0x8000_0000_0000,
{
    reveal(step_done);
    let f = s0.allocate(0).unwrap().0;
    let s1 = s0.allocate(0).unwrap().1;
    let t = table_at(m0, root, depth, v).unwrap();
    let idx = table_index(depth, v);
    let e = pte_new(f as u64, TABLE_FLAGS);
    lemma_alloc_page_frame(s0);
    lemma_alloc(s0, 0);
    assert(page_free(s0.free, s0.page_of(f)));
    assert(m0.contains_frame(f));
    lemma_table_index_bound(depth, v);
    lemma_entry_addr(m0, t, idx);
    assert(is_table(m0, root, t));
    assert(!is_table(m0, root, f)) by {
        if is_table(m0, root, f) {
            let (d, w) = choose|d: nat, w: u64| d <= 3 && #[trigger] table_at(m0, root, d, w) == Some(f);
            assert(table_at(m0, root, d, w).is_some());
        }
    }
    assert forall|a: int| m0.contains_word(a) && #[trigger] m1.word(a) != m0.word(a) implies !is_table(
        m0,
        root,
        frame_base(a),
    ) by {
        lemma_frame_base(f, a);
    }
    lemma_tables_same(m0, m1, root);
    lemma_pte_new(f as u64, TABLE_FLAGS);
    lemma_flag_constants();
    assert forall|i: nat| i < 512 implies !pte_present(#[trigger] entry_at(m1, f, i)) by {
        lemma_entry_addr(m1, f, i);
    }
    assert(entry_at(m1, t, idx) == entry_at(m0, t, idx)) by {
        if m1.word(t + 8 * idx) != m0.word(t + 8 * idx) {
            assert(!is_table(m0, root, frame_base(t + 8 * idx)));
        }
    }
    assert(!is_table(m1, root, f));
    lemma_install_table(m1, m2, root, depth, v, e);
    assert(pte_addr(e) == f);
    assert forall|d: nat, w: u64|
        d <= 3 && (#[trigger] table_at(m2, root, d, w)).is_some() implies !s1.frame_is_free(
        table_at(m2, root, d, w).unwrap(),
    ) by {
        let x = table_at(m2, root, d, w).unwrap();
        assert(is_table(m2, root, x));
        if x != f {
            assert(is_table(m0, root, x));
            let (d0, w0) = choose|d0: nat, w0: u64|
                d0 <= 3 && #[trigger] table_at(m0, root, d0, w0) == Some(x);
            assert(table_at(m0, root, d0, w0).is_some());
            assert(!s0.frame_is_free(x));
        }
    }
    assert forall|a: int| m0.contains_word(a) && #[trigger] m2.word(a) != m0.word(a) implies a == t
        + 8 * idx || f <= a < f + 4096 by {}
    assert forall|dd: nat| dd <= depth implies #[trigger] table_at(m2, root, dd, v) == table_at(
        m0,
        root,
        dd,
        v,
    ) by {}
    assert(link_entry(m2, root, depth, v) == e);
    assert(same_leaves(m0, m2, root));
    assert forall|i: nat| i < 512 implies #[trigger] entry_at(m2, f, i) == 0 by {
        lemma_entry_addr(m1, f, i);
        assert(entry_at(m2, f, i) == entry_at(m1, f, i));
    }
    assert forall|dd: nat, w: u64| dd <= 3 implies #[trigger] table_at(m2, root, dd, w) == (
    if table_at(m0, root, dd, w).is_some() {
        table_at(m0, root, dd, w)
    } else if dd <= depth + 1 && same_prefix(dd, w, v) {
        table_at(m2, root, dd, v)
    } else {
        None
    }) by {
        assert(table_at(m1, root, dd, w) == table_at(m0, root, dd, w));
        if same_prefix(depth + 1, w, v) && dd > depth {
            lemma_prefix_walk(m0, root, depth + 1, w, v);
            lemma_walk_none_below(m0, root, depth + 1, dd, w);
        }
        if dd <= depth + 1 && same_prefix(dd, w, v) {
            lemma_prefix_walk(m2, root, dd, w, v);
        }
    }
}

/// The table below `table` on the walk for `virt`, where `table` is the
/// one at `depth`. If the entry is not present, a fresh frame is taken from
/// the allocator, zeroed, and entered as present, writable and open to
/// user mode. `None` if there is no frame to take; nothing is changed then.
pub fn get_or_create(
    mem: &mut PhysMemory,
    pmm: &mut BuddyAllocator,
    root: PhysAddr,
    table: PhysAddr,
    virt: VirtAddr,
    depth: usize,
) -> (r: Option<PhysAddr>)
    requires
        old(pmm).wf(),
        space_ok(old(mem), root.0 as int, old(pmm)@),
        depth <= 2,
        table_at(old(mem), root.0 as int, depth as nat, virt.0) == Some(table.0 as int),
    ensures
        final(pmm).wf(),
        step_done(
            old(mem),
            final(mem),
            root.0 as int,
            old(pmm)@,
            final(pmm)@,
            virt.0,
            depth as nat,
            match r {
                Some(n) => Some(n.0 as int),
                None => None,
            },
        ),
{
    let idx: usize = index_at(depth, virt);
    let ghost rt = root.0 as int;
    let ghost m0 = *mem;
    let ghost s0 = pmm@;
    proof {
        lemma_entry_addr(mem, table.0 as int, idx as nat);
    }
    let entry: PageTableEntry = read_entry(mem, table, idx);
    if entry.is_present() {
        proof {
            reveal(step_done);
            lemma_pte_addr(entry.0);
        }
        return Some(entry.phys_addr());
    }
    proof {
        lemma_alloc_succeeds(s0, 0);
    }
    let phys: PhysAddr = match alloc_page(pmm) {
        Some(p) => p,
        None => {
            proof {
                reveal(step_done);
            }
            return None;
        },
    };
    proof {
        lemma_alloc_page_frame(s0);
        assert(page_free(s0.free, s0.page_of(phys.0 as int)));
    }
    mem.zero_frame(phys);
    let ghost m1 = *mem;
    let flags = PageFlags::present().union(PageFlags::writable()).union(PageFlags::user());
    let fresh = PageTableEntry::new(phys, flags);
    mem.write(PhysAddr::new(table.0 + 8 * (idx as u64)), fresh.0);
    proof {
        lemma_table_made(&m0, &m1, mem, rt, s0, virt.0, depth as nat);
        lemma_pte_new(phys.0, TABLE_FLAGS);
        lemma_flag_constants();
    }
    Some(fresh.phys_addr())
}

/// What the steps down the walk for `v` have done when they have reached
/// the table at depth `upto`: a table has been made at each depth up to
/// there at which there was none, from the frames that the allocator hands
/// out one after the other; no translation has changed.
#[verifier::opaque]
pub open spec fn walked(
    m0: &PhysMemory,
    m: &PhysMemory,
    root: int,
    s0: BuddyState,
    s: BuddyState,
    v: u64,
    upto: nat,
) -> bool {
    &&& space_ok(m, root, s)
    &&& changed_within(m0, m, root, s0)
    &&& same_leaves(m0, m, root)
    &&& forall|x: int| #[trigger] is_table(m, root, x) ==> is_table(m0, root, x) || s0.frame_is_free(x)
    &&& forall|x: int| #[trigger] s.frame_is_free(x) ==> s0.frame_is_free(x)
    &&& table_at(m, root, upto, v).is_some()
    &&& s == s0.take_pages(missing_upto(m0, root, v, upto))
    &&& s0.free_pages >= missing_upto(m0, root, v, upto)
    &&& missing_upto(m0, root, v, upto) == 0 ==> *m == *m0
    &&& missing_upto(m0, root, v, upto) > 0 ==> forall|dd: nat|
        upto < dd <= 3 ==> (#[trigger] table_at(m, root, dd, v)).is_none() && table_at(
            m0,
            root,
            dd,
            v,
        ).is_none()
    &&& forall|d: nat|
        d < upto && (#[trigger] table_at(m0, root, d + 1, v)).is_none() ==> link_entry(m, root, d, v)
            == pte_new(table_at(m, root, d + 1, v).unwrap() as u64, TABLE_FLAGS)
    &&& tables_grew(m0, m, root, v, upto)
}

/// Before the first step nothing has been done.
pub proof fn lemma_walk_start(m0: &PhysMemory, root: int, s0: BuddyState, v: u64)
    requires
        space_ok(m0, root, s0),
    ensures
        walked(m0, m0, root, s0, s0, v, 0),
{
    reveal(walked);
    assert(s0.take_pages(0) == s0);
    assert(table_at(m0, root, 0, v) == Some(root));
    assert forall|dd: nat, w: u64| dd <= 3 implies #[trigger] table_at(m0, root, dd, w) == (
    if table_at(m0, root, dd, w).is_some() {
        table_at(m0, root, dd, w)
    } else if dd <= 0 && same_prefix(dd, w, v) {
        table_at(m0, root, dd, v)
    } else {
        None
    }) by {
        if dd == 0 {
            assert(table_at(m0, root, 0, w) == Some(root));
        }
    }
}

/// One more step that found or made its table takes the walk one depth
/// further.
pub proof fn lemma_walk_extend(
    m0: &PhysMemory,
    m1: &PhysMemory,
    m2: &PhysMemory,
    root: int,
    s0: BuddyState,
    s1: BuddyState,
    s2: BuddyState,
    v: u64,
    upto: nat,
    r: int,
)
    requires
        space_ok(m0, root, s0),
        upto <= 2,
        walked(m0, m1, root, s0, s1, v, upto),
        step_done(m1, m2, root, s1, s2, v, upto, Some(r)),
    ensures
        walked(m0, m2, root, s0, s2, v, upto + 1),
        table_at(m2, root, upto + 1, v) == Some(r),
        space_ok(m2, root, s2),
{
    reveal(walked);
    reveal(step_done);
    let k = missing_upto(m0, root, v, upto);
    lemma_take_pages(s0, k);
    lemma_take_pages_add(s0, k, 1);
    lemma_alloc_succeeds(s1, 0);
    lemma_tables_grew_more(m0, m1, m2, root, v, upto);
    if k > 0 {
        assert(table_at(m1, root, upto + 1, v).is_none());
        assert(table_at(m0, root, upto + 1, v).is_none());
    }
    if table_at(m1, root, upto + 1, v).is_some() {
        assert(*m2 == *m1 && s2 == s1);
        assert(k == 0);
        assert(missing_upto(m0, root, v, upto + 1) == 0);
        assert forall|d: nat|
            d < upto + 1 && (#[trigger] table_at(m0, root, d + 1, v)).is_none() implies link_entry(
            m2,
            root,
            d,
            v,
        ) == pte_new(table_at(m2, root, d + 1, v).unwrap() as u64, TABLE_FLAGS) by {
            lemma_missing_none(m0, root, v, upto + 1, d + 1);
        }
    } else {
        let frame = s1.allocate(0).unwrap().0;
        assert(table_at(m0, root, upto + 1, v).is_none());
        assert(missing_upto(m0, root, v, upto + 1) == k + 1);
        assert(s1.take_pages(1) == s2) by {
            assert(s2.take_pages(0) == s2);
        }
        lemma_alloc_page_frame(s1);
        lemma_changed_within_step(m0, m1, m2, root, s0, s1, v, upto, frame);
        assert forall|d: nat|
            d < upto + 1 && (#[trigger] table_at(m0, root, d + 1, v)).is_none() implies link_entry(
            m2,
            root,
            d,
            v,
        ) == pte_new(table_at(m2, root, d + 1, v).unwrap() as u64, TABLE_FLAGS) by {
            if d < upto {
                assert(table_at(m1, root, d, v).is_some()) by {
                    if table_at(m1, root, d, v).is_none() {
                        lemma_walk_none_below(m1, root, d, upto, v);
                    }
                }
                lemma_link_kept(m1, m2, root, d, upto, v, frame, frame + 4096);
                assert(table_at(m2, root, d + 1, v) == table_at(m1, root, d + 1, v));
            }
        }
        assert forall|dd: nat| upto + 1 < dd <= 3 implies (#[trigger] table_at(
            m2,
            root,
            dd,
            v,
        )).is_none() && table_at(m0, root, dd, v).is_none() by {
            lemma_walk_none_below(m0, root, upto + 1, dd, v);
        }
    }
}

/// With no table lacking up to a depth, none is lacking at any depth up to
/// there.
pub proof fn lemma_missing_none(mem: &PhysMemory, root: int, v: u64, upto: nat, d: nat)
    requires
        missing_upto(mem, root, v, upto) == 0,
        1 <= d <= upto,
    ensures
        table_at(mem, root, d, v).is_some(),
    decreases upto,
{
    if d < upto {
        lemma_missing_none(mem, root, v, (upto - 1) as nat, d);
    }
}

/// The changes of a step that made a table lie where the changes of the
/// walk may lie.
pub proof fn lemma_changed_within_step(
    m0: &PhysMemory,
    m1: &PhysMemory,
    m2: &PhysMemory,
    root: int,
    s0: BuddyState,
    s1: BuddyState,
    v: u64,
    depth: nat,
    frame: int,
)
    requires
        depth <= 2,
        tables_wf(m1, root),
        changed_within(m0, m1, root, s0),
        forall|x: int| #[trigger] is_table(m1, root, x) ==> is_table(m0, root, x) || s0.frame_is_free(x),
        forall|x: int| #[trigger] s1.frame_is_free(x) ==> s0.frame_is_free(x),
        table_at(m1, root, depth, v).is_some(),
        only_changed(
            m1,
            m2,
            table_at(m1, root, depth, v).unwrap() + 8 * table_index(depth, v),
            frame,
            frame + 4096,
        ),
        frame % 4096 == 0,
        s1.frame_is_free(frame),
    ensures
        changed_within(m0, m2, root, s0),
{
    let t = table_at(m1, root, depth, v).unwrap();
    lemma_table_index_bound(depth, v);
    lemma_entry_addr(m1, t, table_index(depth, v));
    assert(is_table(m1, root, t));
    assert forall|a: int|
        m0.contains_word(a) && #[trigger] m2.word(a) != m0.word(a) implies s0.frame_is_free(
        frame_base(a),
    ) || is_table(m0, root, frame_base(a)) by {
        if m1.word(a) == m0.word(a) {
            assert(m2.word(a) != m1.word(a));
            if frame <= a < frame + 4096 {
                lemma_frame_base(frame, a);
            }
        }
    }
}

/// A step that found neither table nor frame ends the walk: the frames
/// did not suffice.
pub proof fn lemma_walk_fail(
    m0: &PhysMemory,
    m1: &PhysMemory,
    m2: &PhysMemory,
    root: int,
    s0: BuddyState,
    s1: BuddyState,
    s2: BuddyState,
    v: u64,
    upto: nat,
)
    requires
        space_ok(m0, root, s0),
        upto <= 2,
        walked(m0, m1, root, s0, s1, v, upto),
        step_done(m1, m2, root, s1, s2, v, upto, None),
    ensures
        *m2 == *m1,
        s2 == s1,
        s0.free_pages < missing_tables(m0, root, v),
        s2 == s0.take_pages(s0.free_pages),
        walked(m0, m2, root, s0, s2, v, upto),
{
    reveal(walked);
    reveal(step_done);
    let k = missing_upto(m0, root, v, upto);
    lemma_take_pages(s0, k);
    lemma_alloc_succeeds(s1, 0);
    lemma_missing_is_count(m0, root, v);
    if k > 0 {
        assert(table_at(m0, root, upto + 1, v).is_none());
    }
    assert(table_at(m0, root, upto + 1, v).is_none());
    assert(missing_upto(m0, root, v, ((upto + 1) - 1) as nat) < missing_tables(m0, root, v));
}

/// The walk for `virt` down to its table of leaves, with the tables made
/// that were missing on the way. `None` if the allocator ran out of frames
/// for them.
pub fn walk_create(
    mem: &mut PhysMemory,
    pmm: &mut BuddyAllocator,
    pml4: PhysAddr,
    virt: VirtAddr,
) -> (r: Option<PhysAddr>)
    requires
        old(pmm).wf(),
        space_ok(old(mem), pml4.0 as int, old(pmm)@),
    ensures
        final(pmm).wf(),
        space_ok(final(mem), pml4.0 as int, final(pmm)@),
        changed_within(old(mem), final(mem), pml4.0 as int, old(pmm)@),
        same_leaves(old(mem), final(mem), pml4.0 as int),
        forall|x: int| #[trigger]
            is_table(final(mem), pml4.0 as int, x) ==> is_table(old(mem), pml4.0 as int, x)
                || old(pmm)@.frame_is_free(x),
        forall|x: int| #[trigger] final(pmm)@.frame_is_free(x) ==> old(pmm)@.frame_is_free(x),
        forall|dd: nat, w: u64|
            dd <= 3 && (#[trigger] table_at(old(mem), pml4.0 as int, dd, w)).is_some() ==> table_at(
                final(mem),
                pml4.0 as int,
                dd,
                w,
            ) == table_at(old(mem), pml4.0 as int, dd, w),
        final(pmm)@ == old(pmm)@.take_pages(
            if r.is_some() {
                missing_tables(old(mem), pml4.0 as int, virt.0)
            } else {
                old(pmm)@.free_pages
            },
        ),
        r.is_some() ==> tables_grew(old(mem), final(mem), pml4.0 as int, virt.0, 3)
            && missing_tables(final(mem), pml4.0 as int, virt.0) == 0,
        r.is_some() == (old(pmm)@.free_pages >= missing_tables(old(mem), pml4.0 as int, virt.0)),
        r matches Some(pt) ==> walked(
            old(mem),
            final(mem),
            pml4.0 as int,
            old(pmm)@,
            final(pmm)@,
            virt.0,
            3,
        ) && table_at(final(mem), pml4.0 as int, 3, virt.0) == Some(pt.0 as int),
        r.is_none() ==> final(pmm)@ == old(pmm)@.take_pages(old(pmm)@.free_pages) && exists|
            upto: nat,
        |
            upto <= 2 && #[trigger] walked(
                old(mem),
                final(mem),
                pml4.0 as int,
                old(pmm)@,
                final(pmm)@,
                virt.0,
                upto,
            ),
{
    let ghost rt = pml4.0 as int;
    let ghost m0 = *mem;
    let ghost s0 = pmm@;
    proof {
        lemma_walk_start(&m0, rt, s0, virt.0);
        lemma_missing_is_count(&m0, rt, virt.0);
        assert(table_at(&m0, rt, 0, virt.0) == Some(rt));
    }
    let pdpt: PhysAddr = match get_or_create(mem, pmm, pml4, pml4, virt, 0) {
        Some(t) => t,
        None => {
            proof {
                lemma_walk_fail(&m0, &m0, mem, rt, s0, s0, pmm@, virt.0, 0);
                assert(walked(&m0, mem, rt, s0, pmm@, virt.0, 0));
                lemma_walked_facts(&m0, mem, rt, s0, pmm@, virt.0, 0);
            }
            return None;
        },
    };
    let ghost m1 = *mem;
    let ghost s1 = pmm@;
    proof {
        lemma_walk_extend(&m0, &m0, &m1, rt, s0, s0, s1, virt.0, 0, pdpt.0 as int);
    }
    let pd: PhysAddr = match get_or_create(mem, pmm, pml4, pdpt, virt, 1) {
        Some(t) => t,
        None => {
            proof {
                lemma_walk_fail(&m0, &m1, mem, rt, s0, s1, pmm@, virt.0, 1);
                assert(walked(&m0, mem, rt, s0, pmm@, virt.0, 1));
                lemma_walked_facts(&m0, mem, rt, s0, pmm@, virt.0, 1);
            }
            return None;
        },
    };
    let ghost m2 = *mem;
    let ghost s2 = pmm@;
    proof {
        lemma_walk_extend(&m0, &m1, &m2, rt, s0, s1, s2, virt.0, 1, pd.0 as int);
    }
    let pt: PhysAddr = match get_or_create(mem, pmm, pml4, pd, virt, 2) {
        Some(t) => t,
        None => {
            proof {
                lemma_walk_fail(&m0, &m2, mem, rt, s0, s2, pmm@, virt.0, 2);
                assert(walked(&m0, mem, rt, s0, pmm@, virt.0, 2));
                lemma_walked_facts(&m0, mem, rt, s0, pmm@, virt.0, 2);
            }
            return None;
        },
    };
    proof {
        lemma_walk_extend(&m0, &m2, mem, rt, s0, s2, pmm@, virt.0, 2, pt.0 as int);
        lemma_walk_reached(&m0, mem, rt, s0, pmm@, virt.0);
        lemma_walked_facts(&m0, mem, rt, s0, pmm@, virt.0, 3);
        lemma_walked_all(&m0, mem, rt, s0, pmm@, virt.0);
    }
    Some(pt)
}

/// What holds after any number of steps of a walk: memory, tables and
/// allocator fit together, no translation has changed, changes lie in
/// frames that were free or in tables, and every table that was there is
/// there.
pub proof fn lemma_walked_facts(
    m0: &PhysMemory,
    m: &PhysMemory,
    root: int,
    s0: BuddyState,
    s: BuddyState,
    v: u64,
    upto: nat,
)
    requires
        walked(m0, m, root, s0, s, v, upto),
    ensures
        space_ok(m, root, s),
        changed_within(m0, m, root, s0),
        same_leaves(m0, m, root),
        forall|x: int| #[trigger] is_table(m, root, x) ==> is_table(m0, root, x) || s0.frame_is_free(x),
        forall|x: int| #[trigger] s.frame_is_free(x) ==> s0.frame_is_free(x),
        forall|dd: nat, w: u64|
            dd <= 3 && (#[trigger] table_at(m0, root, dd, w)).is_some() ==> table_at(m, root, dd, w)
                == table_at(m0, root, dd, w),
{
    reveal(walked);
    assert forall|dd: nat, w: u64|
        dd <= 3 && (#[trigger] table_at(m0, root, dd, w)).is_some() implies table_at(m, root, dd, w)
        == table_at(m0, root, dd, w) by {
        assert(table_at(m, root, dd, w) == table_at(m0, root, dd, w));
    }
}

/// A walk that has gone all the way has made every table on it.
pub proof fn lemma_walked_all(
    m0: &PhysMemory,
    m: &PhysMemory,
    root: int,
    s0: BuddyState,
    s: BuddyState,
    v: u64,
)
    requires
        walked(m0, m, root, s0, s, v, 3),
    ensures
        tables_grew(m0, m, root, v, 3),
        missing_tables(m, root, v) == 0,
{
    reveal(walked);
    if table_at(m, root, 1, v).is_none() {
        lemma_walk_none_below(m, root, 1, 3, v);
    }
    if table_at(m, root, 2, v).is_none() {
        lemma_walk_none_below(m, root, 2, 3, v);
    }
}

/// A walk that has reached the table of leaves has it in memory.
pub proof fn lemma_walk_reached(
    m0: &PhysMemory,
    m3: &PhysMemory,
    root: int,
    s0: BuddyState,
    s3: BuddyState,
    v: u64,
)
    requires
        walked(m0, m3, root, s0, s3, v, 3),
    ensures
        space_ok(m3, root, s3),
        table_at(m3, root, 3, v).is_some(),
        m3.contains_frame(table_at(m3, root, 3, v).unwrap()),
        s0.free_pages >= missing_tables(m0, root, v),
        s3 == s0.take_pages(missing_tables(m0, root, v)),
{
    reveal(walked);
    lemma_missing_is_count(m0, root, v);
}

/// Writing a leaf keeps memory, tables and allocator fitting together.
pub proof fn lemma_leaf_keeps_space(
    m3: &PhysMemory,
    m4: &PhysMemory,
    root: int,
    s3: BuddyState,
    v: u64,
    e: u64,
)
    requires
        space_ok(m3, root, s3),
        table_at(m3, root, 3, v).is_some(),
        m4.wf(),
        wrote(m3, m4, table_at(m3, root, 3, v).unwrap() + 8 * table_index(3, v), e),
    ensures
        space_ok(m4, root, s3),
        forall|x: int| is_table(m4, root, x) <==> is_table(m3, root, x),
        forall|w: u64| #[trigger]
            leaf(m4, root, w) == (if same_page(w, v) {
                if pte_present(e) {
                    Some(e)
                } else {
                    None
                }
            } else {
                leaf(m3, root, w)
            }),
        forall|d: nat, w: u64|
            d <= 3 ==> #[trigger] table_at(m4, root, d, w) == table_at(m3, root, d, w),
{
    lemma_write_leaf(m3, m4, root, v, e);
    assert forall|d: nat, w: u64|
        d <= 3 && (#[trigger] table_at(m4, root, d, w)).is_some() implies !s3.frame_is_free(
        table_at(m4, root, d, w).unwrap(),
    ) by {
        assert(table_at(m3, root, d, w).is_some());
    }
}

/// A change in one table, after changes within free frames and tables, is
/// a change within the frames that were free and the tables that there
/// were at the start.
pub proof fn lemma_leaf_changed_within(
    m0: &PhysMemory,
    m3: &PhysMemory,
    m4: &PhysMemory,
    root: int,
    s0: BuddyState,
    table: int,
    slot: int,
    e: u64,
)
    requires
        changed_within(m0, m3, root, s0),
        is_table(m3, root, table),
        is_table(m0, root, table) || s0.frame_is_free(table),
        table % 4096 == 0,
        table <= slot < table + 4096,
        slot % 8 == 0,
        wrote(m3, m4, slot, e),
    ensures
        changed_within(m0, m4, root, s0),
{
    assert forall|a: int|
        m0.contains_word(a) && #[trigger] m4.word(a) != m0.word(a) implies s0.frame_is_free(
        frame_base(a),
    ) || is_table(m0, root, frame_base(a)) by {
        if m4.word(a) != m3.word(a) {
            assert(a == slot);
            lemma_frame_base(table, a);
        }
    }
}

/// The entries that a walk has made on its way are as it made them.
pub proof fn lemma_walked_links(
    m0: &PhysMemory,
    m: &PhysMemory,
    root: int,
    s0: BuddyState,
    s: BuddyState,
    v: u64,
)
    requires
        walked(m0, m, root, s0, s, v, 3),
    ensures
        forall|d: nat|
            d < 3 && (#[trigger] table_at(m0, root, d + 1, v)).is_none() ==> link_entry(m, root, d, v)
                == pte_new(table_at(m, root, d + 1, v).unwrap() as u64, TABLE_FLAGS),
{
    reveal(walked);
}

/// Writing a leaf leaves the entries on the way to it as they are.
pub proof fn lemma_links_kept_by_leaf(m3: &PhysMemory, m4: &PhysMemory, root: int, v: u64, e: u64)
    requires
        tables_wf(m3, root),
        table_at(m3, root, 3, v).is_some(),
        wrote(m3, m4, table_at(m3, root, 3, v).unwrap() + 8 * table_index(3, v), e),
        forall|dd: nat, w: u64|
            dd <= 3 ==> #[trigger] table_at(m4, root, dd, w) == table_at(m3, root, dd, w),
    ensures
        link_entry(m4, root, 3, v) == e,
        forall|d: nat| d < 3 ==> #[trigger] link_entry(m4, root, d, v) == link_entry(m3, root, d, v),
{
    let pt = table_at(m3, root, 3, v).unwrap();
    assert(table_at(m4, root, 3, v) == Some(pt));
    assert(only_changed(m3, m4, pt + 8 * table_index(3, v), 0, 0));
    assert forall|d: nat| d < 3 implies #[trigger] link_entry(m4, root, d, v) == link_entry(
        m3,
        root,
        d,
        v,
    ) by {
        assert(table_at(m4, root, d, v) == table_at(m3, root, d, v));
        if table_at(m3, root, d, v).is_none() {
            lemma_walk_none_below(m3, root, d, 3, v);
        }
        lemma_link_kept(m3, m4, root, d, 3, v, 0, 0);
    }
}

/// Tables that have grown, in a memory with the same tables, have grown.
pub proof fn lemma_tables_grew_same(
    m0: &PhysMemory,
    m3: &PhysMemory,
    m4: &PhysMemory,
    root: int,
    v: u64,
)
    requires
        tables_grew(m0, m3, root, v, 3),
        forall|dd: nat, w: u64|
            dd <= 3 ==> #[trigger] table_at(m4, root, dd, w) == table_at(m3, root, dd, w),
    ensures
        tables_grew(m0, m4, root, v, 3),
{
    assert forall|dd: nat, w: u64| dd <= 3 implies #[trigger] table_at(m4, root, dd, w) == (
    if table_at(m0, root, dd, w).is_some() {
        table_at(m0, root, dd, w)
    } else if dd <= 3 && same_prefix(dd, w, v) {
        table_at(m4, root, dd, v)
    } else {
        None
    }) by {
        assert(table_at(m4, root, dd, w) == table_at(m3, root, dd, w));
        assert(table_at(m4, root, dd, v) == table_at(m3, root, dd, v));
    }
}

/// Writing the leaf at the end of a walk keeps what the walk has made and
/// maps the page.
pub proof fn lemma_walk_finish(
    m0: &PhysMemory,
    m3: &PhysMemory,
    m4: &PhysMemory,
    root: int,
    s0: BuddyState,
    s3: BuddyState,
    v: u64,
    e: u64,
)
    requires
        space_ok(m0, root, s0),
        walked(m0, m3, root, s0, s3, v, 3),
        m4.wf(),
        wrote(m3, m4, table_at(m3, root, 3, v).unwrap() + 8 * table_index(3, v), e),
    ensures
        space_ok(m4, root, s3),
        changed_within(m0, m4, root, s0),
        forall|x: int| #[trigger] is_table(m4, root, x) ==> is_table(m0, root, x) || s0.frame_is_free(x),
        forall|x: int| #[trigger] s3.frame_is_free(x) ==> s0.frame_is_free(x),
        s3 == s0.take_pages(missing_tables(m0, root, v)),
        forall|w: u64| #[trigger]
            leaf(m4, root, w) == (if same_page(w, v) {
                if pte_present(e) {
                    Some(e)
                } else {
                    None
                }
            } else {
                leaf(m0, root, w)
            }),
        forall|d: nat|
            d < 3 && (#[trigger] table_at(m0, root, d + 1, v)).is_none() ==> link_entry(m4, root, d, v)
                == pte_new(table_at(m4, root, d + 1, v).unwrap() as u64, TABLE_FLAGS),
        tables_grew(m0, m4, root, v, 3),
        missing_tables(m4, root, v) == 0,
        link_entry(m4, root, 3, v) == e,
{
    lemma_walked_facts(m0, m3, root, s0, s3, v, 3);
    lemma_walked_all(m0, m3, root, s0, s3, v);
    lemma_walk_reached(m0, m3, root, s0, s3, v);
    lemma_walked_links(m0, m3, root, s0, s3, v);
    let pt = table_at(m3, root, 3, v).unwrap();
    let slot = pt + 8 * table_index(3, v);
    lemma_table_index_bound(3, v);
    lemma_entry_addr(m3, pt, table_index(3, v));
    assert(is_table(m3, root, pt));
    lemma_leaf_keeps_space(m3, m4, root, s3, v, e);
    lemma_leaf_changed_within(m0, m3, m4, root, s0, pt, slot, e);
    lemma_links_kept_by_leaf(m3, m4, root, v, e);
    lemma_tables_grew_same(m0, m3, m4, root, v);
    assert forall|d: nat|
        d < 3 && (#[trigger] table_at(m0, root, d + 1, v)).is_none() implies link_entry(m4, root, d, v)
        == pte_new(table_at(m4, root, d + 1, v).unwrap() as u64, TABLE_FLAGS) by {
        assert(link_entry(m4, root, d, v) == link_entry(m3, root, d, v));
        assert(table_at(m4, root, d + 1, v) == table_at(m3, root, d + 1, v));
    }
    assert(missing_tables(m4, root, v) == 0) by {
        assert(table_at(m4, root, 1, v) == table_at(m3, root, 1, v));
        assert(table_at(m4, root, 2, v) == table_at(m3, root, 2, v));
        assert(table_at(m4, root, 3, v) == table_at(m3, root, 3, v));
    }
}

/// Maps the page of `virt` to the frame at `phys` with `flags`, making the
/// tables on the way where they are missing. `false` if the allocator ran
/// out of frames for them; no translation has changed then.
pub fn map_page(
    mem: &mut PhysMemory,
    pmm: &mut BuddyAllocator,
    pml4: PhysAddr,
    virt: VirtAddr,
    phys: PhysAddr,
    flags: PageFlags,
) -> (ok: bool)
    requires
        old(pmm).wf(),
        space_ok(old(mem), pml4.0 as int, old(pmm)@),
        virt.0 % 4096 == 0,
        phys.0 % 4096 == 0,
    ensures
        final(pmm).wf(),
        space_ok(final(mem), pml4.0 as int, final(pmm)@),
        changed_within(old(mem), final(mem), pml4.0 as int, old(pmm)@),
        forall|x: int| #[trigger]
            is_table(final(mem), pml4.0 as int, x) ==> is_table(old(mem), pml4.0 as int, x)
                || old(pmm)@.frame_is_free(x),
        forall|x: int| #[trigger] final(pmm)@.frame_is_free(x) ==> old(pmm)@.frame_is_free(x),
        ok == (old(pmm)@.free_pages >= missing_tables(old(mem), pml4.0 as int, virt.0)),
        final(pmm)@ == old(pmm)@.take_pages(
            if ok {
                missing_tables(old(mem), pml4.0 as int, virt.0)
            } else {
                old(pmm)@.free_pages
            },
        ),
        forall|v: u64| #[trigger]
            leaf(final(mem), pml4.0 as int, v) == (if ok && same_page(v, virt.0) {
                if pte_present(pte_new(phys.0, flags@)) {
                    Some(pte_new(phys.0, flags@))
                } else {
                    None
                }
            } else {
                leaf(old(mem), pml4.0 as int, v)
            }),
        ok ==> forall|d: nat|
            d < 3 && (#[trigger] table_at(old(mem), pml4.0 as int, d + 1, virt.0)).is_none()
                ==> link_entry(final(mem), pml4.0 as int, d, virt.0) == pte_new(
                table_at(final(mem), pml4.0 as int, d + 1, virt.0).unwrap() as u64,
                TABLE_FLAGS,
            ),
        ok ==> tables_grew(old(mem), final(mem), pml4.0 as int, virt.0, 3),
        ok ==> missing_tables(final(mem), pml4.0 as int, virt.0) == 0,
        ok ==> link_entry(final(mem), pml4.0 as int, 3, virt.0) == pte_new(phys.0, flags@),
{
    let ghost rt = pml4.0 as int;
    let ghost m0 = *mem;
    let ghost s0 = pmm@;
    proof {
        lemma_missing_is_count(&m0, rt, virt.0);
    }
    let pt: PhysAddr = match walk_create(mem, pmm, pml4, virt) {
        Some(t) => t,
        None => {
            proof {
                reveal(walked);
            }
            return false;
        },
    };
    let ghost m3 = *mem;
    proof {
        lemma_walk_reached(&m0, &m3, rt, s0, pmm@, virt.0);
        lemma_table_index_bound(3, virt.0);
        lemma_entry_addr(&m3, pt.0 as int, table_index(3, virt.0));
    }
    let idx: usize = pt_idx(virt);
    let entry = PageTableEntry::new(phys, flags);
    mem.write(PhysAddr::new(pt.0 + 8 * (idx as u64)), entry.0);
    proof {
        lemma_walk_finish(&m0, &m3, mem, rt, s0, pmm@, virt.0, entry.0);
    }
    true
}

/// Changes within free frames and tables, made one after the other, are
/// changes within the frames that were free and the tables that there were
/// at the start.
pub proof fn lemma_changed_within_trans(
    m0: &PhysMemory,
    m1: &PhysMemory,
    m2: &PhysMemory,
    root: int,
    s0: BuddyState,
    s1: BuddyState,
)
    requires
        changed_within(m0, m1, root, s0),
        changed_within(m1, m2, root, s1),
        forall|x: int| #[trigger] s1.frame_is_free(x) ==> s0.frame_is_free(x),
        forall|x: int| #[trigger]
            is_table(m1, root, x) ==> is_table(m0, root, x) || s0.frame_is_free(x),
    ensures
        changed_within(m0, m2, root, s0),
{
    assert forall|a: int|
        m0.contains_word(a) && #[trigger] m2.word(a) != m0.word(a) implies s0.frame_is_free(
        frame_base(a),
    ) || is_table(m0, root, frame_base(a)) by {
        if m1.word(a) != m0.word(a) {
        } else {
            assert(m2.word(a) != m1.word(a));
            assert(m1.contains_word(a));
        }
    }
}

/// Takes the page of `virt` out of the translation. Where the walk does
/// not reach a leaf, nothing is written. The tables stay.
pub fn unmap_page(mem: &mut PhysMemory, pml4: PhysAddr, virt: VirtAddr)
    requires
        old(mem).wf(),
        tables_wf(old(mem), pml4.0 as int),
    ensures
        final(mem).wf(),
        tables_wf(final(mem), pml4.0 as int),
        forall|v: u64| #[trigger]
            leaf(final(mem), pml4.0 as int, v) == (if same_page(v, virt.0) {
                None
            } else {
                leaf(old(mem), pml4.0 as int, v)
            }),
        forall|d: nat, v: u64|
            d <= 3 ==> #[trigger] table_at(final(mem), pml4.0 as int, d, v) == table_at(
                old(mem),
                pml4.0 as int,
                d,
                v,
            ),
        forall|x: int|
            is_table(final(mem), pml4.0 as int, x) <==> is_table(old(mem), pml4.0 as int, x),
        match table_at(old(mem), pml4.0 as int, 3, virt.0) {
            Some(t) => wrote(old(mem), final(mem), t + 8 * table_index(3, virt.0), 0),
            None => *final(mem) == *old(mem),
        },
{
    let ghost rt = pml4.0 as int;
    let ghost m0 = *mem;
    proof {
        assert forall|v: u64| same_page(v, virt.0) && table_at(&m0, rt, 3, virt.0).is_none() implies leaf(
            &m0,
            rt,
            v,
        ).is_none() by {
            lemma_prefix_walk(&m0, rt, 3, v, virt.0);
        }
        if table_at(&m0, rt, 1, virt.0).is_none() {
            lemma_walk_none_below(&m0, rt, 1, 3, virt.0);
        }
        if table_at(&m0, rt, 2, virt.0).is_none() {
            lemma_walk_none_below(&m0, rt, 2, 3, virt.0);
        }
        assert(table_at(&m0, rt, 0, virt.0) == Some(rt));
    }
    let e0 = read_entry(mem, pml4, pml4_idx(virt));
    if !e0.is_present() {
        return ;
    }
    proof {
        lemma_pte_addr(e0.0);
        assert(table_at(&m0, rt, 1, virt.0) == Some(pte_addr(e0.0) as int));
    }
    let e1 = read_entry(mem, e0.phys_addr(), pdpt_idx(virt));
    if !e1.is_present() {
        return ;
    }
    proof {
        lemma_pte_addr(e1.0);
        assert(table_at(&m0, rt, 2, virt.0) == Some(pte_addr(e1.0) as int));
    }
    let e2 = read_entry(mem, e1.phys_addr(), pd_idx(virt));
    if !e2.is_present() {
        return ;
    }
    proof {
        lemma_pte_addr(e2.0);
        assert(table_at(&m0, rt, 3, virt.0) == Some(pte_addr(e2.0) as int));
        lemma_table_index_bound(3, virt.0);
        lemma_entry_addr(&m0, pte_addr(e2.0) as int, table_index(3, virt.0));
    }
    let pt = e2.phys_addr();
    let idx: usize = pt_idx(virt);
    mem.write(PhysAddr::new(pt.0 + 8 * (idx as u64)), 0);
    proof {
        lemma_write_leaf(&m0, mem, rt, virt.0, 0);
        lemma_pte_new(0, 0);
    }
}

/// The physical address that `virt` translates to: the four tables are
/// read in turn; `None` at the first entry that is not present.
pub fn translate_addr(mem: &PhysMemory, pml4: PhysAddr, virt: VirtAddr) -> (r: Option<PhysAddr>)
    requires
        mem.wf(),
        tables_in_memory(mem, pml4.0 as int),
    ensures
        match r {
            Some(a) => translation(mem, pml4.0 as int, virt.0) == Some(a.0 as int),
            None => translation(mem, pml4.0 as int, virt.0).is_none(),
        },
{
    let ghost rt = pml4.0 as int;
    proof {
        if table_at(mem, rt, 1, virt.0).is_none() {
            lemma_walk_none_below(mem, rt, 1, 3, virt.0);
        }
        if table_at(mem, rt, 2, virt.0).is_none() {
            lemma_walk_none_below(mem, rt, 2, 3, virt.0);
        }
        assert(table_at(mem, rt, 0, virt.0) == Some(rt));
    }
    let e0 = read_entry(mem, pml4, pml4_idx(virt));
    if !e0.is_present() {
        return None;
    }
    proof {
        lemma_pte_addr(e0.0);
        assert(table_at(mem, rt, 1, virt.0) == Some(pte_addr(e0.0) as int));
    }
    let e1 = read_entry(mem, e0.phys_addr(), pdpt_idx(virt));
    if !e1.is_present() {
        return None;
    }
    proof {
        lemma_pte_addr(e1.0);
        assert(table_at(mem, rt, 2, virt.0) == Some(pte_addr(e1.0) as int));
    }
    let e2 = read_entry(mem, e1.phys_addr(), pd_idx(virt));
    if !e2.is_present() {
        return None;
    }
    proof {
        lemma_pte_addr(e2.0);
        assert(table_at(mem, rt, 3, virt.0) == Some(pte_addr(e2.0) as int));
    }
    let e3 = read_entry(mem, e2.phys_addr(), pt_idx(virt));
    if !e3.is_present() {
        return None;
    }
    let page_phys = e3.phys_addr();
    let offset: u64 = virt.as_u64() & 0xFFF;
    proof {
        lemma_pte_addr(e3.0);
        let v = virt.0;
        assert(v & 0xFFF < 4096) by (bit_vector);
    }
    Some(PhysAddr::new(page_phys.as_u64() + offset))
}

/// Whether `v` lies in the half of the address space whose root entries
/// are the kernel's.
pub open spec fn upper_half(v: u64) -> bool {
    table_index(0, v) >= 256
}

/// Whether the table at `root` has the upper half of its entries from the
/// table at `kroot`, or zero where there is none, and its lower half zero.
pub open spec fn root_shares(mem: &PhysMemory, root: int, kroot: Option<int>) -> bool {
    forall|i: nat|
        i < 512 ==> #[trigger] entry_at(mem, root, i) == (match kroot {
            Some(k) => if i >= 256 {
                entry_at(mem, k, i)
            } else {
                0
            },
            None => 0,
        })
}

/// The walk under a root that shares the kernel's upper half is the
/// kernel's walk there, and reaches nothing in the lower half.
pub proof fn lemma_shared_walk(mem: &PhysMemory, root: int, kroot: Option<int>, d: nat, v: u64)
    requires
        root_shares(mem, root, kroot),
        1 <= d <= 3,
    ensures
        table_at(mem, root, d, v) == (match kroot {
            Some(k) => if upper_half(v) {
                table_at(mem, k, d, v)
            } else {
                None
            },
            None => None,
        }),
    decreases d,
{
    lemma_table_index_bound(0, v);
    lemma_pte_new(0, 0);
    if d > 1 {
        lemma_shared_walk(mem, root, kroot, (d - 1) as nat, v);
    } else {
        assert(table_at(mem, root, 0, v) == Some(root));
        if kroot.is_some() {
            assert(table_at(mem, kroot.unwrap(), 0, v) == Some(kroot.unwrap()));
        }
    }
}

/// A fresh root that shares the kernel's upper half is the root of a tree
/// of tables: itself and the kernel's.
pub proof fn lemma_shared_space(mem: &PhysMemory, root: int, kroot: Option<int>)
    requires
        mem.contains_frame(root),
        root_shares(mem, root, kroot),
        kroot matches Some(k) ==> tables_wf(mem, k) && !is_table(mem, k, root),
    ensures
        tables_wf(mem, root),
        forall|v: u64| #[trigger]
            leaf(mem, root, v) == (match kroot {
                Some(k) => if upper_half(v) {
                    leaf(mem, k, v)
                } else {
                    None
                },
                None => None,
            }),
        forall|x: int| #[trigger]
            is_table(mem, root, x) ==> x == root || (kroot matches Some(k) && is_table(mem, k, x)),
{
    assert forall|d: nat, v: u64| 1 <= d <= 3 implies #[trigger] table_at(mem, root, d, v) == (
    match kroot {
        Some(k) => if upper_half(v) {
            table_at(mem, k, d, v)
        } else {
            None
        },
        None => None,
    }) by {
        lemma_shared_walk(mem, root, kroot, d, v);
    }
    assert forall|v: u64| #[trigger]
        leaf(mem, root, v) == (match kroot {
            Some(k) => if upper_half(v) {
                leaf(mem, k, v)
            } else {
                None
            },
            None => None,
        }) by {
        lemma_shared_walk(mem, root, kroot, 3, v);
    }
    assert forall|x: int| #[trigger] is_table(mem, root, x) implies x == root || (
    kroot matches Some(k) && is_table(mem, k, x)) by {
        let (d, v) = choose|d: nat, v: u64| d <= 3 && #[trigger] table_at(mem, root, d, v) == Some(x);
        if d >= 1 {
            lemma_shared_walk(mem, root, kroot, d, v);
            assert(table_at(mem, kroot.unwrap(), d, v) == Some(x));
        }
    }
    assert forall|d: nat, v: u64|
        d <= 3 && (#[trigger] table_at(mem, root, d, v)).is_some() implies mem.contains_frame(
        table_at(mem, root, d, v).unwrap(),
    ) by {
        if d >= 1 {
            assert(table_at(mem, kroot.unwrap(), d, v).is_some());
        }
    }
    assert forall|d1: nat, v1: u64, d2: nat, v2: u64|
        d1 <= 3 && d2 <= 3 && (#[trigger] table_at(mem, root, d1, v1)).is_some() && table_at(
            mem,
            root,
            d1,
            v1,
        ) == #[trigger] table_at(mem, root, d2, v2) implies d1 == d2 && same_prefix(d1, v1, v2) by {
        if d1 >= 1 && d2 >= 1 {
            let k = kroot.unwrap();
            assert(table_at(mem, k, d1, v1) == table_at(mem, k, d2, v2));
        } else if d1 >= 1 {
            assert(table_at(mem, kroot.unwrap(), d1, v1) == Some(root));
            assert(is_table(mem, kroot.unwrap(), root));
        } else if d2 >= 1 {
            assert(table_at(mem, kroot.unwrap(), d2, v2) == Some(root));
            assert(is_table(mem, kroot.unwrap(), root));
        }
    }
}

/// Whether `after` translates as `before` does, but that the page of
/// `virt` has the leaf entry made of `phys` and `flags`.
pub open spec fn mapped(
    before: &PhysMemory,
    after: &PhysMemory,
    root: int,
    virt: u64,
    phys: u64,
    flags: u64,
) -> bool {
    forall|v: u64| #[trigger]
        leaf(after, root, v) == (if same_page(v, virt) {
            if pte_present(pte_new(phys, flags)) {
                Some(pte_new(phys, flags))
            } else {
                None
            }
        } else {
            leaf(before, root, v)
        })
}

/// Whether `after` translates as `before` does, but that the page of
/// `virt` has no leaf entry.
pub open spec fn unmapped(before: &PhysMemory, after: &PhysMemory, root: int, virt: u64) -> bool {
    forall|v: u64| #[trigger]
        leaf(after, root, v) == (if same_page(v, virt) {
            None
        } else {
            leaf(before, root, v)
        })
}

/// Whether `after` translates as `before` does.
pub open spec fn same_leaves(before: &PhysMemory, after: &PhysMemory, root: int) -> bool {
    forall|v: u64| #[trigger] leaf(after, root, v) == leaf(before, root, v)
}

/// An address translates to the frame that its page was mapped to, at the
/// same offset in the page.
pub proof fn lemma_mapped_translates(
    before: &PhysMemory,
    after: &PhysMemory,
    root: int,
    virt: u64,
    phys: u64,
    flags: u64,
    v: u64,
)
    requires
        mapped(before, after, root, virt, phys, flags),
        phys % 4096 == 0,
        phys < 0x10_0000_0000_0000,
        flags & !ALL_FLAGS == 0,
        flags & PRESENT != 0,
        same_page(v, virt),
    ensures
        translation(after, root, v) == Some(phys + (v & 0xFFF)),
        v % 4096 == 0 ==> translation(after, root, v) == Some(phys as int),
{
    lemma_pte_new(phys, flags);
    assert(leaf(after, root, v) == Some(pte_new(phys, flags)));
    assert(v % 4096 == 0 ==> v & 0xFFF == 0) by (bit_vector);
}

/// A page that was mapped translates to its frame until it is unmapped
/// or mapped anew: mapping or unmapping another page leaves it alone.
pub proof fn lemma_translation_stays(
    before: &PhysMemory,
    after: &PhysMemory,
    root: int,
    other: u64,
    phys: u64,
    flags: u64,
    v: u64,
)
    requires
        mapped(before, after, root, other, phys, flags) || unmapped(before, after, root, other)
            || same_leaves(before, after, root),
        !same_page(v, other),
    ensures
        translation(after, root, v) == translation(before, root, v),
{
    assert(leaf(after, root, v) == leaf(before, root, v));
}

/// A page that was unmapped translates to nothing.
pub proof fn lemma_unmapped_translates(
    before: &PhysMemory,
    after: &PhysMemory,
    root: int,
    virt: u64,
    v: u64,
)
    requires
        unmapped(before, after, root, virt),
        same_page(v, virt),
    ensures
        translation(after, root, v).is_none(),
{
    assert(leaf(after, root, v).is_none());
}

/// The address `off` bytes above `start`.
pub open spec fn page_at(start: u64, off: u64) -> u64 {
    (start + off) as u64
}

/// Two pages less than `2^48` bytes apart are different pages to the walk.
pub proof fn lemma_pages_apart(start: u64, a: u64, b: u64)
    requires
        a % 4096 == 0,
        b % 4096 == 0,
        a < 0x1_0000_0000_0000,
        b < 0x1_0000_0000_0000,
        start + a <= u64::MAX,
        start + b <= u64::MAX,
    ensures
        same_page((start + a) as u64, (start + b) as u64) <==> a == b,
        ((start + a) as u64) % 4096 == start % 4096,
{
    let x = (start + a) as u64;
    let y = (start + b) as u64;
    assert(((x >> 39) & 0x1FF == (y >> 39) & 0x1FF && (x >> 30) & 0x1FF == (y >> 30) & 0x1FF && (x
        >> 21) & 0x1FF == (y >> 21) & 0x1FF && (x >> 12) & 0x1FF == (y >> 12) & 0x1FF) <==> a
        == b) by (bit_vector)
        requires
            a % 4096 == 0,
            b % 4096 == 0,
            a < 0x1_0000_0000_0000,
            b < 0x1_0000_0000_0000,
            start <= 0xFFFF_FFFF_FFFF_FFFF - a,
            start <= 0xFFFF_FFFF_FFFF_FFFF - b,
            x == start + a,
            y == start + b,
    ;
}

/// The address of any byte of a page is the page's address and the offset
/// in the page.
pub proof fn lemma_page_of(v: u64)
    ensures
        same_page(v, (v - v % 4096) as u64),
        (v & !0xFFFu64) == v - v % 4096,
        v & 0xFFF == v % 4096,
{
    let p = (v - v % 4096) as u64;
    assert((v >> 39) & 0x1FF == (p >> 39) & 0x1FF && (v >> 30) & 0x1FF == (p >> 30) & 0x1FF && (v
        >> 21) & 0x1FF == (p >> 21) & 0x1FF && (v >> 12) & 0x1FF == (p >> 12) & 0x1FF && (v
        & !0xFFFu64) == p && v & 0xFFF == v % 4096) by (bit_vector)
        requires
            p == v - v % 4096,
    ;
}

/// Where a page is mapped to a frame of zeroes, every byte read through
/// the translation is zero.
pub proof fn lemma_zero_frame_reads_zero(
    mem: &PhysMemory,
    root: int,
    v: u64,
    phys: u64,
    flags: u64,
)
    requires
        leaf(mem, root, v) == Some(pte_new(phys, flags)),
        phys % 4096 == 0,
        phys < 0x10_0000_0000_0000,
        flags & !ALL_FLAGS == 0,
        forall|a: int| phys <= a < phys + 4096 && a % 8 == 0 ==> #[trigger] mem.word(a) == 0,
    ensures
        translation(mem, root, v) == Some(phys + v % 4096),
        mem.byte(phys + v % 4096) == 0,
{
    lemma_pte_new(phys, flags);
    lemma_page_of(v);
    crate::mm::memory::lemma_zero_frame_bytes(mem, phys as int, phys + v % 4096);
}

/// Addresses in the same page have the same leaf entry.
pub proof fn lemma_leaf_same_page(mem: &PhysMemory, root: int, a: u64, b: u64)
    requires
        same_page(a, b),
    ensures
        leaf(mem, root, a) == leaf(mem, root, b),
{
    lemma_prefix_walk(mem, root, 3, a, b);
}

/// The page and the offset in the page of an address that lies `off` bytes
/// above a page boundary.
pub proof fn lemma_offset_page(start: u64, off: u64)
    requires
        start % 4096 == 0,
        start + off <= u64::MAX,
    ensures
        (start + off) % 4096 == off % 4096,
        (start + off) - (start + off) % 4096 == start + (off - off % 4096),
{
    let v = (start + off) as u64;
    assert(v % 4096 == off % 4096) by (bit_vector)
        requires
            start % 4096 == 0,
            start <= 0xFFFF_FFFF_FFFF_FFFF - off,
            v == start + off,
    ;
}

/// Addresses less than 1 GiB above a boundary of 512 GiB share the first
/// two tables of their walks, and the third where they lie in the same
/// 2 MiB.
pub proof fn lemma_near_prefix(start: u64, a: u64, b: u64)
    requires
        start % 0x80_0000_0000 == 0,
        a < 0x4000_0000,
        b < 0x4000_0000,
        start <= u64::MAX - 0x4000_0000,
    ensures
        same_prefix(2, page_at(start, a), page_at(start, b)),
        a / 0x20_0000 == b / 0x20_0000 <==> same_prefix(3, page_at(start, a), page_at(start, b)),
{
    let x = (start + a) as u64;
    let y = (start + b) as u64;
    assert((x >> 39) & 0x1FF == (y >> 39) & 0x1FF && (x >> 30) & 0x1FF == (y >> 30) & 0x1FF && (a
        / 0x20_0000 == b / 0x20_0000 <==> (x >> 21) & 0x1FF == (y >> 21) & 0x1FF)) by (bit_vector)
        requires
            start % 0x80_0000_0000 == 0,
            a < 0x4000_0000,
            b < 0x4000_0000,
            start <= 0xFFFF_FFFF_FFFF_FFFF - 0x4000_0000,
            x == start + a,
            y == start + b,
    ;
}

} // verus!
