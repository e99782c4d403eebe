//! Kernel heap: slab caches for small objects, whole pages for large ones.
//!
//! There are nine size classes, from 8 to 2048 bytes. Each class keeps its
//! free cells in a list that is threaded through the cells themselves: the
//! first word of a free cell holds the address of the next one, or zero at
//! the end. An object larger than 2048 bytes gets a block of pages straight
//! from the frame allocator.

use vstd::prelude::*;
use crate::mm::buddy::{
    ancestor, block_bytes, block_pages, BuddyState, lemma_alloc, lemma_alloc_page_frame,
    lemma_alloc_succeeds, lemma_ancestor_range, lemma_block_pages_values,
    lemma_first_child_is_product, lemma_release, lemma_take_pages, lemma_take_pages_add, page_free,
};
use crate::mm::memory::PhysMemory;
use crate::mm::page_table::{frame_base, lemma_frame_base};
use crate::mm::pmm::{
    alloc_page, alloc_pages, BuddyAllocator, free_pages, MAX_ORDER, PAGE_SIZE, PhysAddr,
};
use crate::mm::vmm::{phys_to_virt, PHYSICAL_MAP_OFFSET, virt_to_phys, VirtAddr};

verus! {

/// Number of size classes.
pub const NUM_SLABS: usize = 9;

/// Whether `size` is the cell size of a class.
pub open spec fn is_slab_size(size: int) -> bool {
    size == 8 || size == 16 || size == 32 || size == 64 || size == 128 || size == 256 || size
        == 512 || size == 1024 || size == 2048
}

/// The address that a free cell holds in its first word: the next free
/// cell, or zero.
pub open spec fn link_word(mem: &PhysMemory, cell: u64) -> u64 {
    mem.word(cell - PHYSICAL_MAP_OFFSET)
}

/// The `n` cells that the links lead through from `head` on.
pub open spec fn chain(mem: &PhysMemory, head: u64, n: nat) -> Seq<u64>
    decreases n,
{
    if n == 0 {
        Seq::empty()
    } else {
        seq![head] + chain(mem, link_word(mem, head), (n - 1) as nat)
    }
}

/// What the links lead to after `n` cells from `head` on.
pub open spec fn chain_end(mem: &PhysMemory, head: u64, n: nat) -> u64
    decreases n,
{
    if n == 0 {
        head
    } else {
        chain_end(mem, link_word(mem, head), (n - 1) as nat)
    }
}

/// Whether `cell` can be a cell of a class with cells of `size` bytes: it
/// lies in the direct map, at a multiple of `size`, and in `mem`.
pub open spec fn cell_ok(mem: &PhysMemory, cell: u64, size: int) -> bool {
    &&& cell >= PHYSICAL_MAP_OFFSET
    &&& (cell - PHYSICAL_MAP_OFFSET) % size == 0
    &&& mem.contains_word(cell - PHYSICAL_MAP_OFFSET)
}

/// The cells that a frame at the physical address `frame` is cut into.
pub open spec fn cells_of(frame: int, size: int) -> Seq<u64> {
    Seq::new((4096int / size) as nat, |i: int| (PHYSICAL_MAP_OFFSET + frame + i * size) as u64)
}

/// A list of `n` cells has `n` cells.
pub proof fn lemma_chain_len(mem: &PhysMemory, head: u64, n: nat)
    ensures
        chain(mem, head, n).len() == n,
    decreases n,
{
    if n > 0 {
        lemma_chain_len(mem, link_word(mem, head), (n - 1) as nat);
    }
}

/// A list whose cells hold the same links in two memories is the same list
/// in both.
pub proof fn lemma_chain_same(m1: &PhysMemory, m2: &PhysMemory, head: u64, n: nat)
    requires
        forall|i: int|
            0 <= i < n ==> link_word(m2, #[trigger] chain(m1, head, n)[i]) == link_word(
                m1,
                chain(m1, head, n)[i],
            ),
    ensures
        chain(m2, head, n) == chain(m1, head, n),
        chain_end(m2, head, n) == chain_end(m1, head, n),
    decreases n,
{
    if n > 0 {
        let l = chain(m1, head, n);
        let next = link_word(m1, head);
        let rest = chain(m1, next, (n - 1) as nat);
        lemma_chain_len(m1, next, (n - 1) as nat);
        assert(l[0] == head);
        assert(link_word(m2, head) == next);
        assert forall|i: int| 0 <= i < n - 1 implies link_word(m2, #[trigger] rest[i]) == link_word(
            m1,
            rest[i],
        ) by {
            assert(l[i + 1] == rest[i]);
        }
        lemma_chain_same(m1, m2, next, (n - 1) as nat);
    }
}

/// The list cut after its first `k` cells: what comes before the cut and
/// what comes after.
pub proof fn lemma_chain_split(mem: &PhysMemory, head: u64, k: nat, n: nat)
    requires
        k <= n,
    ensures
        chain(mem, head, n) == chain(mem, head, k) + chain(
            mem,
            chain_end(mem, head, k),
            (n - k) as nat,
        ),
        chain_end(mem, head, n) == chain_end(mem, chain_end(mem, head, k), (n - k) as nat),
    decreases k,
{
    if k > 0 {
        lemma_chain_split(mem, link_word(mem, head), (k - 1) as nat, (n - 1) as nat);
        assert(chain(mem, head, n) =~= chain(mem, head, k) + chain(
            mem,
            chain_end(mem, head, k),
            (n - k) as nat,
        ));
    } else {
        assert(chain(mem, head, n) =~= chain(mem, head, 0) + chain(mem, head, n));
    }
}

/// One size class: the list of its free cells and how many cells it has.
pub struct SlabCache {
    /// Size of a cell in bytes.
    obj_size: usize,
    /// Address of the first free cell, zero if there is none.
    free: u64,
    /// Cells that the class has cut from frames.
    total: usize,
    /// Cells that are handed out.
    used: usize,
}

impl SlabCache {
    /// Size of a cell in bytes.
    pub closed spec fn cell_size(&self) -> int {
        self.obj_size as int
    }

    /// Cells that the class has cut from frames.
    pub closed spec fn total(&self) -> nat {
        self.total as nat
    }

    /// Cells that are handed out.
    pub closed spec fn used(&self) -> nat {
        self.used as nat
    }

    /// The free cells, the one that is handed out next first.
    pub closed spec fn free_list(&self, mem: &PhysMemory) -> Seq<u64> {
        chain(mem, self.free, (self.total - self.used) as nat)
    }

    /// The class is in order: the free list has as many cells as are not
    /// handed out and ends there; each cell is a cell of this class, and
    /// none occurs twice.
    pub closed spec fn wf(&self, mem: &PhysMemory) -> bool {
        &&& is_slab_size(self.obj_size as int)
        &&& self.used <= self.total
        &&& chain_end(mem, self.free, (self.total - self.used) as nat) == 0
        &&& forall|i: int|
            0 <= i < self.free_list(mem).len() ==> cell_ok(
                mem,
                #[trigger] self.free_list(mem)[i],
                self.obj_size as int,
            )
        &&& self.free_list(mem).no_duplicates()
    }

    /// No free cell lies in a frame that `pmm` holds as free.
    pub open spec fn clear_of(&self, mem: &PhysMemory, pmm: BuddyState) -> bool {
        forall|i: int|
            0 <= i < self.free_list(mem).len() ==> !pmm.frame_is_free(
                frame_base(#[trigger] self.free_list(mem)[i] - PHYSICAL_MAP_OFFSET),
            )
    }

    /// What is known of a class that is in order.
    pub proof fn lemma_wf(&self, mem: &PhysMemory)
        requires
            self.wf(mem),
        ensures
            is_slab_size(self.cell_size()),
            self.used() <= self.total(),
            self.free_list(mem).len() == self.total() - self.used(),
            self.free_list(mem).no_duplicates(),
            forall|i: int|
                0 <= i < self.free_list(mem).len() ==> cell_ok(
                    mem,
                    #[trigger] self.free_list(mem)[i],
                    self.cell_size(),
                ),
    {
        lemma_chain_len(mem, self.free, (self.total - self.used) as nat);
    }

    /// Gives the class one more frame: a page is taken from the allocator
    /// and cut into cells, which are put before the free cells that there
    /// are, the lowest first. Nothing happens where no page is free.
    pub fn grow(&mut self, mem: &mut PhysMemory, pmm: &mut BuddyAllocator)
        requires
            old(self).wf(old(mem)),
            old(self).clear_of(old(mem), old(pmm)@),
            old(pmm).wf(),
            old(mem).wf(),
            old(mem).backs(old(pmm)@),
            old(self).total() + 512 <= usize::MAX,
        ensures
            final(self).wf(final(mem)),
            final(self).clear_of(final(mem), final(pmm)@),
            final(pmm).wf(),
            final(mem).wf(),
            final(mem).backs(final(pmm)@),
            final(self).cell_size() == old(self).cell_size(),
            final(self).used() == old(self).used(),
            final(pmm)@ == old(pmm)@.take_pages(1),
            match old(pmm)@.allocate(0) {
                None => *final(self) == *old(self) && *final(mem) == *old(mem),
                Some((frame, _)) => (final(self).total() == old(self).total() + 4096int / old(
                    self
                ).cell_size()) && (final(self).free_list(final(mem)) == cells_of(
                    frame,
                    old(self).cell_size(),
                ) + old(self).free_list(old(mem))) && final(mem).same_outside(
                    old(mem),
                    frame,
                    frame + 4096,
                ),
            },
    {
        let ghost m0 = *mem;
        let ghost s0 = pmm@;
        let ghost n0 = (self.total - self.used) as nat;
        let ghost l0 = self.free_list(mem);
        let ghost free0 = self.free;
        proof {
            lemma_alloc_succeeds(s0, 0);
            lemma_take_pages(s0, 1);
            lemma_chain_len(mem, self.free, n0);
        }
        let phys: PhysAddr = match alloc_page(pmm) {
            Some(p) => p,
            None => {
                assert(s0.take_pages(1) == s0);
                return ;
            },
        };
        let ghost s1 = pmm@;
        let ghost a = phys.0 as int;
        proof {
            lemma_alloc_page_frame(s0);
            lemma_alloc(s0, 0);
            assert(s0.take_pages(1) == s1) by {
                assert(s1.take_pages(0) == s1);
            }
            assert(page_free(s0.free, s0.page_of(a)));
            assert(mem.contains_frame(a));
        }
        let virt = phys_to_virt(phys);
        let start: u64 = virt.as_u64();
        let obj_size: u64 = self.obj_size as u64;
        let count: usize = PAGE_SIZE / self.obj_size;
        let ghost size = obj_size as int;
        let ghost cells = cells_of(a, size);
        let mut k: usize = count;
        proof {
            lemma_cells(a, size, 0, 0);
            assert(cells.subrange(count as int, count as int) + l0 =~= l0);
            assert forall|i: int| 0 <= i < n0 implies !(a <= #[trigger] l0[i] - PHYSICAL_MAP_OFFSET
                < a + 4096) by {
                assert(!s0.frame_is_free(frame_base(l0[i] - PHYSICAL_MAP_OFFSET)));
                if a <= l0[i] - PHYSICAL_MAP_OFFSET < a + 4096 {
                    lemma_frame_base(a, l0[i] - PHYSICAL_MAP_OFFSET);
                }
            }
        }
        while k > 0
            invariant
                0 <= k <= count,
                count == 4096int / size,
                size == obj_size,
                is_slab_size(size),
                mem.wf(),
                m0.wf(),
                mem.same_outside(&m0, a, a + 4096),
                mem.contains_frame(a),
                a == phys.0,
                a % 4096 == 0,
                start == PHYSICAL_MAP_OFFSET + a,
                start + 4095 <= u64::MAX,
                cells == cells_of(a, size),
                l0.len() == n0,
                forall|i: int| 0 <= i < n0 ==> cell_ok(&m0, #[trigger] l0[i], size),
                forall|i: int|
                    0 <= i < n0 ==> !(a <= #[trigger] l0[i] - PHYSICAL_MAP_OFFSET < a + 4096),
                a + 4096 <= 0x8000_0000_0000,
                chain(mem, self.free, (count - k + n0) as nat) == cells.subrange(
                    k as int,
                    count as int,
                ) + l0,
                chain_end(mem, self.free, (count - k + n0) as nat) == 0,
                self.obj_size == old(self).obj_size,
                self.total == old(self).total,
                self.used == old(self).used,
            decreases k,
        {
            let ghost before = *mem;
            let ghost f = self.free;
            let ghost n = (count - k + n0) as nat;
            let ghost list = chain(&before, f, n);
            k -= 1;
            proof {
                lemma_cells(a, size, k as int, k as int);
                lemma_chain_len(&before, f, n);
            }
            let cell: u64 = start + (k as u64) * obj_size;
            mem.write(PhysAddr::new(phys.0 + (k as u64) * obj_size), self.free);
            self.free = cell;
            proof {
                assert(cell == cells[k as int]);
                assert forall|i: int| 0 <= i < n implies (#[trigger] list[i]) != cell && list[i]
                    >= PHYSICAL_MAP_OFFSET && before.contains_word(
                    list[i] - PHYSICAL_MAP_OFFSET,
                ) by {
                    if i < count - k - 1 {
                        lemma_cells(a, size, k + 1 + i, k as int);
                        assert(list[i] == cells[k + 1 + i]);
                    } else {
                        let j = i - (count - k - 1);
                        assert(list[i] == l0[j]);
                        assert(cell_ok(&m0, l0[j], size));
                        assert(!(a <= l0[j] - PHYSICAL_MAP_OFFSET < a + 4096));
                    }
                }
                lemma_push_cell(&before, mem, f, n, cell);
                assert(cells.subrange(k as int, count as int) =~= seq![cell] + cells.subrange(
                    k + 1,
                    count as int,
                ));
                assert(seq![cell] + (cells.subrange(k + 1, count as int) + l0) =~= cells.subrange(
                    k as int,
                    count as int,
                ) + l0);
                assert forall|x: int|
                    mem.contains_word(x) && !(a <= x < a + 4096) implies #[trigger] mem.word(x)
                    == m0.word(x) by {
                    assert(mem.word(x) == before.word(x));
                }
            }
        }
        self.total += count;
        proof {
            assert(cells.subrange(0, count as int) =~= cells);
            let l = cells + l0;
            assert(self.free_list(mem) == l);
            assert forall|i: int| 0 <= i < l.len() implies cell_ok(mem, #[trigger] l[i], size)
                && !s1.frame_is_free(frame_base(l[i] - PHYSICAL_MAP_OFFSET)) by {
                if i < count {
                    lemma_cells(a, size, i, i);
                } else {
                    assert(l[i] == l0[i - count]);
                    assert(cell_ok(&m0, l0[i - count], size));
                    assert(!s0.frame_is_free(frame_base(l0[i - count] - PHYSICAL_MAP_OFFSET)));
                }
            }
            assert forall|i: int, j: int| 0 <= i < l.len() && 0 <= j < l.len() && i != j implies l[i]
                != l[j] by {
                if i < count && j < count {
                    lemma_cells(a, size, i, j);
                } else if i < count {
                    lemma_cells(a, size, i, i);
                    assert(l[j] == l0[j - count]);
                } else if j < count {
                    lemma_cells(a, size, j, j);
                    assert(l[i] == l0[i - count]);
                } else {
                    assert(l[i] == l0[i - count] && l[j] == l0[j - count]);
                }
            }
        }
    }

    /// Takes a cell: the first of the free list. If the list is empty the
    /// class is first given one more frame. `None` if it is still empty
    /// then.
    pub fn allocate(&mut self, mem: &mut PhysMemory, pmm: &mut BuddyAllocator) -> (r: Option<
        VirtAddr,
    >)
        requires
            old(self).wf(old(mem)),
            old(self).clear_of(old(mem), old(pmm)@),
            old(pmm).wf(),
            old(mem).wf(),
            old(mem).backs(old(pmm)@),
            old(self).total() + 512 <= usize::MAX,
        ensures
            final(self).wf(final(mem)),
            final(self).clear_of(final(mem), final(pmm)@),
            final(pmm).wf(),
            final(mem).wf(),
            final(mem).backs(final(pmm)@),
            final(self).cell_size() == old(self).cell_size(),
            slab_take(old(self).free_list(old(mem)), old(pmm)@, old(self).cell_size()) == (
                match r {
                    Some(v) => Some(v.0),
                    None => None,
                },
                final(self).free_list(final(mem)),
                final(pmm)@,
            ),
            r.is_some() ==> final(self).used() == old(self).used() + 1 && cell_ok(
                final(mem),
                r.unwrap().0,
                old(self).cell_size(),
            ) && !final(pmm)@.frame_is_free(frame_base(r.unwrap().0 - PHYSICAL_MAP_OFFSET)),
            r.is_none() ==> *final(self) == *old(self),
            old(self).free_list(old(mem)).len() > 0 ==> *final(mem) == *old(mem)
                && final(self).total() == old(self).total(),
            old(self).free_list(old(mem)).len() == 0 ==> match old(pmm)@.allocate(0) {
                None => *final(mem) == *old(mem),
                Some((frame, _)) => final(mem).same_outside(old(mem), frame, frame + 4096)
                    && final(self).total() == old(self).total() + 4096int / old(self).cell_size(),
            },
    {
        let ghost l0 = self.free_list(mem);
        let ghost s0 = pmm@;
        proof {
            lemma_chain_len(mem, self.free, (self.total - self.used) as nat);
            lemma_take_pages(s0, 1);
            lemma_alloc_succeeds(s0, 0);
            if l0.len() > 0 {
                assert(cell_ok(mem, l0[0], self.obj_size as int));
            }
        }
        if self.free == 0 {
            self.grow(mem, pmm);
            proof {
                lemma_chain_len(mem, self.free, (self.total - self.used) as nat);
                if s0.allocate(0).is_some() {
                    let frame = s0.allocate(0).unwrap().0;
                    lemma_cell_offsets(self.obj_size as int, 0, 0);
                    assert(self.free_list(mem) =~= cells_of(frame, self.obj_size as int));
                    assert(s0.take_pages(1) == s0.allocate(0).unwrap().1) by {
                        assert(s0.allocate(0).unwrap().1.take_pages(0) == s0.allocate(
                            0,
                        ).unwrap().1);
                    }
                }
            }
        }
        if self.free == 0 {
            proof {
                if self.free_list(mem).len() > 0 {
                    assert(cell_ok(mem, self.free_list(mem)[0], self.obj_size as int));
                }
            }
            return None;
        }
        let ghost l1 = self.free_list(mem);
        let ghost n1 = (self.total - self.used) as nat;
        proof {
            if n1 == 0 {
                assert(chain_end(mem, self.free, 0) == self.free);
            }
            assert(l1[0] == self.free);
            assert(cell_ok(mem, l1[0], self.obj_size as int));
        }
        let node: u64 = self.free;
        self.free = mem.read(PhysAddr::new(node - PHYSICAL_MAP_OFFSET));
        self.used += 1;
        proof {
            let l2 = self.free_list(mem);
            assert(l2 =~= l1.drop_first());
            lemma_chain_len(mem, self.free, (n1 - 1) as nat);
            assert forall|i: int| 0 <= i < l2.len() implies cell_ok(
                mem,
                #[trigger] l2[i],
                self.obj_size as int,
            ) && !pmm@.frame_is_free(frame_base(l2[i] - PHYSICAL_MAP_OFFSET)) by {
                assert(l2[i] == l1[i + 1]);
            }
            assert forall|i: int, j: int| 0 <= i < l2.len() && 0 <= j < l2.len() && i != j implies l2[i]
                != l2[j] by {
                assert(l2[i] == l1[i + 1] && l2[j] == l1[j + 1]);
            }
        }
        Some(VirtAddr::new(node))
    }

    /// Takes a cell back: it becomes the first of the free list.
    pub fn free(&mut self, mem: &mut PhysMemory, ptr: VirtAddr)
        requires
            old(self).wf(old(mem)),
            old(mem).wf(),
            old(self).used() >= 1,
            cell_ok(old(mem), ptr.0, old(self).cell_size()),
            !old(self).free_list(old(mem)).contains(ptr.0),
        ensures
            final(self).wf(final(mem)),
            final(mem).wf(),
            final(self).cell_size() == old(self).cell_size(),
            final(self).total() == old(self).total(),
            final(self).used() == old(self).used() - 1,
            final(self).free_list(final(mem)) == seq![ptr.0] + old(self).free_list(old(mem)),
            final(mem).same_outside(
                old(mem),
                ptr.0 - PHYSICAL_MAP_OFFSET,
                ptr.0 - PHYSICAL_MAP_OFFSET + 8,
            ),
    {
        let ghost m0 = *mem;
        let ghost l0 = self.free_list(mem);
        let ghost n0 = (self.total - self.used) as nat;
        let ghost f = self.free;
        proof {
            lemma_chain_len(mem, self.free, n0);
            assert forall|i: int| 0 <= i < n0 implies (#[trigger] l0[i]) != ptr.0 && l0[i]
                >= PHYSICAL_MAP_OFFSET && m0.contains_word(l0[i] - PHYSICAL_MAP_OFFSET) by {
                assert(l0.contains(l0[i]));
                assert(cell_ok(&m0, l0[i], self.obj_size as int));
            }
            assert forall|i: int| 0 <= i < n0 implies cell_ok(
                &m0,
                #[trigger] l0[i],
                self.obj_size as int,
            ) by {}
            assert(l0.no_duplicates());
        }
        mem.write(PhysAddr::new(ptr.0 - PHYSICAL_MAP_OFFSET), self.free);
        self.free = ptr.0;
        self.used -= 1;
        proof {
            lemma_push_cell(&m0, mem, f, n0, ptr.0);
            let l1 = self.free_list(mem);
            assert(l1 =~= seq![ptr.0] + l0);
            assert forall|i: int| 0 <= i < l1.len() implies cell_ok(
                mem,
                #[trigger] l1[i],
                self.obj_size as int,
            ) by {
                if i > 0 {
                    assert(l1[i] == l0[i - 1]);
                    assert(cell_ok(&m0, l0[i - 1], self.obj_size as int));
                }
            }
            assert forall|i: int, j: int| 0 <= i < l1.len() && 0 <= j < l1.len() && i != j implies l1[i]
                != l1[j] by {
                if i > 0 {
                    assert(l1[i] == l0[i - 1]);
                    assert(l0.contains(l0[i - 1]));
                }
                if j > 0 {
                    assert(l1[j] == l0[j - 1]);
                    assert(l0.contains(l0[j - 1]));
                }
            }
        }
    }

    /// Memory that changes where the class has no free cell leaves the
    /// class as it is.
    pub proof fn lemma_unaffected(&self, m1: &PhysMemory, m2: &PhysMemory, lo: int, hi: int)
        requires
            self.wf(m1),
            m2.same_outside(m1, lo, hi),
            forall|i: int|
                0 <= i < self.free_list(m1).len() ==> !(lo <= #[trigger] self.free_list(m1)[i]
                    - PHYSICAL_MAP_OFFSET < hi),
        ensures
            self.wf(m2),
            self.free_list(m2) == self.free_list(m1),
    {
        let n = (self.total - self.used) as nat;
        let l = self.free_list(m1);
        lemma_chain_len(m1, self.free, n);
        assert forall|i: int| 0 <= i < n implies link_word(m2, #[trigger] l[i]) == link_word(
            m1,
            l[i],
        ) by {
            assert(cell_ok(m1, l[i], self.obj_size as int));
            assert(m2.contains_word(l[i] - PHYSICAL_MAP_OFFSET));
        }
        lemma_chain_same(m1, m2, self.free, n);
        assert forall|i: int| 0 <= i < self.free_list(m2).len() implies cell_ok(
            m2,
            #[trigger] self.free_list(m2)[i],
            self.obj_size as int,
        ) by {
            assert(cell_ok(m1, l[i], self.obj_size as int));
        }
    }

    /// A class with cells of `obj_size` bytes and no cell yet.
    pub fn new(obj_size: usize) -> (r: Self)
        ensures
            r.cell_size() == obj_size,
            r.total() == 0,
            r.used() == 0,
            forall|mem: &PhysMemory| #[trigger] r.free_list(mem) == Seq::<u64>::empty(),
            forall|mem: &PhysMemory| is_slab_size(obj_size as int) ==> #[trigger] r.wf(mem),
    {
        Self { obj_size, free: 0, total: 0, used: 0 }
    }
}

/// What taking a cell does: the first of the free list is handed out; if
/// the list is empty, a frame is taken from the allocator, its first cell
/// is handed out and the others are the new list; if there is no frame
/// either, nothing.
pub open spec fn slab_take(list: Seq<u64>, pmm: BuddyState, size: int) -> (
    Option<u64>,
    Seq<u64>,
    BuddyState,
) {
    if list.len() > 0 {
        (Some(list[0]), list.drop_first(), pmm)
    } else {
        match pmm.allocate(0) {
            None => (None, list, pmm),
            Some((frame, rest)) => (
                Some(cells_of(frame, size)[0]),
                cells_of(frame, size).drop_first(),
                rest,
            ),
        }
    }
}

/// Where the cells of a frame lie.
pub proof fn lemma_cell_offsets(size: int, j: int, k: int)
    requires
        is_slab_size(size),
        0 <= j < 4096int / size,
        0 <= k < 4096int / size,
    ensures
        0 <= j * size,
        j * size + size <= 4096,
        (j * size) % 8 == 0,
        j != k ==> j * size != k * size,
        j < k ==> j * size + size <= k * size,
        4096int / size >= 2,
{
    if size == 8 {
        assert(4096int / 8 == 512);
        assert(j * size == j * 8);
        assert(k * size == k * 8);
        assert((j * 8) % 8 == 0);
    } else if size == 16 {
        assert(4096int / 16 == 256);
        assert(j * size == j * 16);
        assert(k * size == k * 16);
        assert((j * 16) % 8 == 0);
    } else if size == 32 {
        assert(4096int / 32 == 128);
        assert(j * size == j * 32);
        assert(k * size == k * 32);
        assert((j * 32) % 8 == 0);
    } else if size == 64 {
        assert(4096int / 64 == 64);
        assert(j * size == j * 64);
        assert(k * size == k * 64);
        assert((j * 64) % 8 == 0);
    } else if size == 128 {
        assert(4096int / 128 == 32);
        assert(j * size == j * 128);
        assert(k * size == k * 128);
        assert((j * 128) % 8 == 0);
    } else if size == 256 {
        assert(4096int / 256 == 16);
        assert(j * size == j * 256);
        assert(k * size == k * 256);
        assert((j * 256) % 8 == 0);
    } else if size == 512 {
        assert(4096int / 512 == 8);
        assert(j * size == j * 512);
        assert(k * size == k * 512);
        assert((j * 512) % 8 == 0);
    } else if size == 1024 {
        assert(4096int / 1024 == 4);
        assert(j * size == j * 1024);
        assert(k * size == k * 1024);
        assert((j * 1024) % 8 == 0);
    } else {
        assert(4096int / 2048 == 2);
        assert(j * size == j * 2048);
        assert(k * size == k * 2048);
        assert((j * 2048) % 8 == 0);
    }
}

/// A cell of a frame lies at a multiple of the cell size.
pub proof fn lemma_cell_aligned(a: int, size: int, j: int)
    requires
        is_slab_size(size),
        a % 4096 == 0,
        0 <= j < 4096int / size,
    ensures
        (a + j * size) % size == 0,
{
    let c = 4096int / size;
    assert(c * size == 4096) by {
        lemma_slab_size_divides(size);
    }
    let q = a / 4096;
    vstd::arithmetic::div_mod::lemma_fundamental_div_mod(a, 4096);
    assert(a == 4096 * q);
    assert(a + j * size == (c * q + j) * size) by (nonlinear_arith)
        requires
            a == 4096 * q,
            c * size == 4096,
    ;
    vstd::arithmetic::div_mod::lemma_mod_multiples_basic(c * q + j, size);
}

/// A frame holds between 2 and 512 cells.
pub proof fn lemma_cell_count(size: int)
    requires
        is_slab_size(size),
    ensures
        2 <= 4096int / size <= 512,
{
    lemma_cell_offsets(size, 0, 0);
    lemma_slab_size_divides(size);
    let c = 4096int / size;
    assert(c <= 512) by (nonlinear_arith)
        requires
            c * size == 4096,
            size >= 8,
    ;
}

/// The cell sizes divide the page size.
pub proof fn lemma_slab_size_divides(size: int)
    requires
        is_slab_size(size),
    ensures
        (4096int / size) * size == 4096,
{
    if size == 8 {
        assert(4096int / 8 == 512);
    } else if size == 16 {
        assert(4096int / 16 == 256);
    } else if size == 32 {
        assert(4096int / 32 == 128);
    } else if size == 64 {
        assert(4096int / 64 == 64);
    } else if size == 128 {
        assert(4096int / 128 == 32);
    } else if size == 256 {
        assert(4096int / 256 == 16);
    } else if size == 512 {
        assert(4096int / 512 == 8);
    } else if size == 1024 {
        assert(4096int / 1024 == 4);
    } else {
        assert(4096int / 2048 == 2);
    }
}

/// Writing the head of a list into a cell that is not on the list puts
/// the cell before the list.
pub proof fn lemma_push_cell(before: &PhysMemory, after: &PhysMemory, f: u64, n: nat, cell: u64)
    requires
        cell >= PHYSICAL_MAP_OFFSET,
        (cell - PHYSICAL_MAP_OFFSET) % 8 == 0,
        after.same_outside(before, cell - PHYSICAL_MAP_OFFSET, cell - PHYSICAL_MAP_OFFSET + 8),
        after.word(cell - PHYSICAL_MAP_OFFSET) == f,
        forall|i: int|
            0 <= i < n ==> (#[trigger] chain(before, f, n)[i]) != cell && chain(before, f, n)[i]
                >= PHYSICAL_MAP_OFFSET && before.contains_word(
                chain(before, f, n)[i] - PHYSICAL_MAP_OFFSET,
            ),
    ensures
        chain(after, cell, n + 1) == seq![cell] + chain(before, f, n),
        chain(after, f, n) == chain(before, f, n),
        chain_end(after, cell, n + 1) == chain_end(before, f, n),
{
    let list = chain(before, f, n);
    assert forall|i: int| 0 <= i < n implies link_word(after, #[trigger] list[i]) == link_word(
        before,
        list[i],
    ) by {
        let x = list[i] - PHYSICAL_MAP_OFFSET;
        assert(after.contains_word(x));
    }
    lemma_chain_same(before, after, f, n);
    assert(link_word(after, cell) == f);
}

/// Where the cells of the frame at `a` lie, and that they lie apart.
pub proof fn lemma_cells(a: int, size: int, j: int, k: int)
    requires
        is_slab_size(size),
        a % 4096 == 0,
        0 <= a,
        a + 4096 <= 0x8000_0000_0000,
        0 <= j < 4096int / size,
        0 <= k < 4096int / size,
    ensures
        cells_of(a, size)[j] == PHYSICAL_MAP_OFFSET + a + j * size,
        a <= cells_of(a, size)[j] - PHYSICAL_MAP_OFFSET,
        cells_of(a, size)[j] - PHYSICAL_MAP_OFFSET + size <= a + 4096,
        (cells_of(a, size)[j] - PHYSICAL_MAP_OFFSET) % 8 == 0,
        (cells_of(a, size)[j] - PHYSICAL_MAP_OFFSET) % size == 0,
        frame_base(cells_of(a, size)[j] - PHYSICAL_MAP_OFFSET) == a,
        j != k ==> cells_of(a, size)[j] != cells_of(a, size)[k],
        cells_of(a, size).len() == 4096int / size,
{
    lemma_cell_offsets(size, j, k);
    lemma_cell_offsets(size, k, j);
    lemma_cell_aligned(a, size, j);
    lemma_frame_base(a, a + j * size);
    assert((a + j * size) % 8 == 0);
}

/// Cell size of class `idx`.
pub open spec fn class_size(idx: int) -> int {
    if idx == 0 {
        8
    } else if idx == 1 {
        16
    } else if idx == 2 {
        32
    } else if idx == 3 {
        64
    } else if idx == 4 {
        128
    } else if idx == 5 {
        256
    } else if idx == 6 {
        512
    } else if idx == 7 {
        1024
    } else {
        2048
    }
}

/// The class that serves `size` bytes: the lowest whose cells are large
/// enough. Meant for sizes up to 2048.
pub open spec fn class_for(size: int) -> int {
    if size <= 8 {
        0
    } else if size <= 16 {
        1
    } else if size <= 32 {
        2
    } else if size <= 64 {
        3
    } else if size <= 128 {
        4
    } else if size <= 256 {
        5
    } else if size <= 512 {
        6
    } else if size <= 1024 {
        7
    } else {
        8
    }
}

/// The lowest order from `from` up whose blocks hold `pages` pages, or
/// the number of orders if none does.
pub open spec fn order_from(pages: int, from: nat) -> nat
    decreases 11 - from,
{
    if from >= 11 || block_pages(from) >= pages {
        from
    } else {
        order_from(pages, from + 1)
    }
}

/// Below the number of orders, the order found has blocks of `pages`
/// pages or more.
pub proof fn lemma_order_holds(pages: int, from: nat)
    ensures
        order_from(pages, from) >= from,
        order_from(pages, from) < 11 ==> block_pages(order_from(pages, from)) >= pages,
    decreases 11 - from,
{
    if !(from >= 11 || block_pages(from) >= pages) {
        lemma_order_holds(pages, from + 1);
    }
}

/// The order of the block that serves `size` bytes: the lowest whose
/// blocks hold the pages that `size` bytes take.
pub open spec fn order_for(size: int) -> nat {
    order_from((size + 4095) / 4096, 0)
}

/// The larger of the two.
pub open spec fn effective_size(size: usize, align: usize) -> usize {
    if size >= align {
        size
    } else {
        align
    }
}

/// Cell size of class `idx`.
pub fn slab_size(idx: usize) -> (r: usize)
    requires
        idx < NUM_SLABS,
    ensures
        r == class_size(idx as int),
        is_slab_size(r as int),
{
    if idx == 0 {
        8
    } else if idx == 1 {
        16
    } else if idx == 2 {
        32
    } else if idx == 3 {
        64
    } else if idx == 4 {
        128
    } else if idx == 5 {
        256
    } else if idx == 6 {
        512
    } else if idx == 7 {
        1024
    } else {
        2048
    }
}

/// The order of the block that serves `size` bytes.
pub fn order_of(size: usize) -> (r: usize)
    ensures
        r == order_for(size as int),
        r <= MAX_ORDER,
{
    let pages: usize = size / PAGE_SIZE + (if size % PAGE_SIZE != 0 {
        1usize
    } else {
        0usize
    });
    assert(pages == (size + 4095) / 4096);
    let mut order: usize = 0;
    let mut block: usize = 1;
    proof {
        lemma_block_pages_values();
    }
    while order < MAX_ORDER && block < pages
        invariant
            order <= MAX_ORDER,
            block == block_pages(order as nat),
            block <= 1024 || order == MAX_ORDER,
            order_from(pages as int, 0) == order_from(pages as int, order as nat),
        decreases MAX_ORDER - order,
    {
        proof {
            lemma_block_pages_values();
            assert(block_pages((order + 1) as nat) == 2 * block_pages(order as nat));
        }
        order += 1;
        if order < MAX_ORDER {
            block = block * 2;
        } else {
            block = 2048;
        }
    }
    order
}

/// The kernel's heap: the nine size classes and a count of the bytes that
/// are handed out.
pub struct KernelHeap {
    /// The classes, in the order of their cell sizes.
    slabs: Vec<SlabCache>,
    /// Bytes handed out and not given back, counted modulo the machine
    /// word.
    used_bytes: usize,
}

impl KernelHeap {
    /// Class `idx`.
    pub closed spec fn slab(&self, idx: int) -> SlabCache {
        self.slabs@[idx]
    }

    /// Bytes handed out and not given back.
    pub closed spec fn used_bytes(&self) -> usize {
        self.used_bytes
    }

    /// There are nine classes.
    pub closed spec fn complete(&self) -> bool {
        self.slabs@.len() == NUM_SLABS
    }

    /// Each class is in order, has the cell size that belongs to it, and
    /// has no free cell in a frame that `pmm` holds as free.
    pub open spec fn classes_ok(&self, mem: &PhysMemory, pmm: BuddyState) -> bool {
        &&& self.complete()
        &&& forall|i: int|
            0 <= i < NUM_SLABS ==> (#[trigger] self.slab(i)).wf(mem) && self.slab(i).cell_size()
                == class_size(i) && self.slab(i).clear_of(mem, pmm)
    }

    /// No cell is free in two classes.
    #[verifier::opaque]
    pub open spec fn classes_apart(&self, mem: &PhysMemory) -> bool {
        forall|i: int, j: int, x: u64|
            0 <= i < NUM_SLABS && 0 <= j < NUM_SLABS && i != j && #[trigger] self.slab(
                i,
            ).free_list(mem).contains(x) ==> !#[trigger] self.slab(j).free_list(mem).contains(x)
    }

    /// The heap is in order: each class is, and no cell is free in two of
    /// them.
    pub open spec fn wf(&self, mem: &PhysMemory, pmm: BuddyState) -> bool {
        self.classes_ok(mem, pmm) && self.classes_apart(mem)
    }

    /// Each class can count one more frame's worth of cells.
    pub open spec fn has_room(&self) -> bool {
        forall|i: int| 0 <= i < NUM_SLABS ==> (#[trigger] self.slab(i)).total() + 512 <= usize::MAX
    }

    /// No class has `ptr` among its free cells.
    pub open spec fn not_free(&self, mem: &PhysMemory, ptr: u64) -> bool {
        forall|i: int|
            0 <= i < NUM_SLABS ==> !(#[trigger] self.slab(i)).free_list(mem).contains(ptr)
    }

    /// No class has a free cell in the `bytes` bytes from the physical
    /// address `lo` on.
    pub open spec fn no_cell_in(&self, mem: &PhysMemory, lo: int, bytes: int) -> bool {
        forall|i: int, k: int|
            0 <= i < NUM_SLABS && 0 <= k < self.slab(i).free_list(mem).len() ==> !(lo <= (
            #[trigger] self.slab(i).free_list(mem)[k]) - PHYSICAL_MAP_OFFSET < lo + bytes)
    }

    /// Whether what `ptr` points to can be given back as an object of
    /// `size` bytes aligned to `align`. For a class: `ptr` is a cell of the
    /// class that is handed out, so not free in any class, and its frame is
    /// not free in `pmm`. For a large object: `ptr` shows a block of the
    /// object's order that `pmm` can take back, which lies in `mem` and
    /// holds no free cell.
    pub open spec fn can_dealloc(
        &self,
        mem: &PhysMemory,
        pmm: BuddyState,
        ptr: u64,
        size: usize,
        align: usize,
    ) -> bool {
        let eff = effective_size(size, align);
        if eff <= 2048 {
            let idx = class_for(eff as int);
            &&& self.slab(idx).used() >= 1
            &&& cell_ok(mem, ptr, class_size(idx))
            &&& self.not_free(mem, ptr)
            &&& !pmm.frame_is_free(frame_base(ptr - PHYSICAL_MAP_OFFSET))
        } else {
            let order = order_for(eff as int);
            &&& ptr >= PHYSICAL_MAP_OFFSET
            &&& pmm.can_release(ptr - PHYSICAL_MAP_OFFSET, order as int)
            &&& mem.base() <= ptr - PHYSICAL_MAP_OFFSET
            &&& ptr - PHYSICAL_MAP_OFFSET + block_bytes(order) <= mem.base() + mem.size()
            &&& self.no_cell_in(mem, ptr - PHYSICAL_MAP_OFFSET, block_bytes(order))
        }
    }

    /// A heap whose classes have no cells yet.
    pub fn new() -> (r: Self)
        ensures
            r.used_bytes() == 0,
            r.has_room(),
            r.complete(),
            forall|i: int|
                0 <= i < NUM_SLABS ==> (#[trigger] r.slab(i)).total() == 0 && r.slab(i).used() == 0
                    && r.slab(i).cell_size() == class_size(i),
            forall|mem: &PhysMemory, pmm: BuddyState| #[trigger] r.wf(mem, pmm),
            forall|mem: &PhysMemory, i: int|
                0 <= i < NUM_SLABS ==> #[trigger] r.slab(i).free_list(mem) == Seq::<u64>::empty(),
    {
        let mut slabs: Vec<SlabCache> = Vec::new();
        let mut i: usize = 0;
        while i < NUM_SLABS
            invariant
                i <= NUM_SLABS,
                slabs@.len() == i,
                forall|k: int|
                    0 <= k < i ==> (#[trigger] slabs@[k]).cell_size() == class_size(k)
                        && slabs@[k].total() == 0 && slabs@[k].used() == 0 && (forall|
                        mem: &PhysMemory,
                    | #[trigger]
                        slabs@[k].free_list(mem) == Seq::<u64>::empty()) && (forall|
                        mem: &PhysMemory,
                    | #[trigger] slabs@[k].wf(mem)),
            decreases NUM_SLABS - i,
        {
            slabs.push(SlabCache::new(slab_size(i)));
            i += 1;
        }
        let r = Self { slabs, used_bytes: 0 };
        proof {
            assert forall|mem: &PhysMemory, pmm: BuddyState| #[trigger] r.wf(mem, pmm) by {
                assert(r.classes_apart(mem)) by {
                    reveal(KernelHeap::classes_apart);
                    assert forall|k: int| 0 <= k < NUM_SLABS implies #[trigger] r.slab(k).free_list(
                        mem,
                    ).len() == 0 by {
                        assert(r.slabs@[k].free_list(mem) == Seq::<u64>::empty());
                    }
                }
                assert forall|k: int| 0 <= k < NUM_SLABS implies (#[trigger] r.slab(k)).wf(mem)
                    && r.slab(k).cell_size() == class_size(k) && r.slab(k).clear_of(mem, pmm) by {
                    assert(r.slab(k) == r.slabs@[k]);
                    assert(r.slabs@[k].free_list(mem) == Seq::<u64>::empty());
                    assert(r.slabs@[k].wf(mem));
                }
            }
            assert forall|mem: &PhysMemory, k: int| 0 <= k < NUM_SLABS implies #[trigger] r.slab(
                k,
            ).free_list(mem) == Seq::<u64>::empty() by {
                assert(r.slabs@[k].free_list(mem) == Seq::<u64>::empty());
            }
        }
        r
    }

    /// Hands out memory for an object of `size` bytes aligned to `align`.
    /// Up to 2048 bytes, it is a cell of the class that serves the larger
    /// of the two numbers; above, a block of pages from the frame
    /// allocator. `None` where there is no cell and no frame for more, or
    /// no block of the size. What is handed out can be given back with
    /// the same `size` and `align`, and lies at a multiple of `align` where
    /// that is a power of two.
    pub fn allocate(
        &mut self,
        mem: &mut PhysMemory,
        pmm: &mut BuddyAllocator,
        size: usize,
        align: usize,
    ) -> (r: Option<VirtAddr>)
        requires
            old(self).wf(old(mem), old(pmm)@),
            old(self).has_room(),
            old(pmm).wf(),
            old(mem).wf(),
            old(mem).backs(old(pmm)@),
        ensures
            final(self).wf(final(mem), final(pmm)@),
            final(pmm).wf(),
            final(mem).wf(),
            final(mem).backs(final(pmm)@),
            final(self).used_bytes() == old(self).used_bytes().wrapping_add(
                effective_size(size, align),
            ),
            effective_size(size, align) <= 2048 ==> slab_take(
                old(self).slab(class_for(effective_size(size, align) as int)).free_list(old(mem)),
                old(pmm)@,
                class_size(class_for(effective_size(size, align) as int)),
            ) == (
                match r {
                    Some(v) => Some(v.0),
                    None => None,
                },
                final(self).slab(class_for(effective_size(size, align) as int)).free_list(
                    final(mem),
                ),
                final(pmm)@,
            ) && forall|j: int|
                0 <= j < NUM_SLABS && j != class_for(effective_size(size, align) as int)
                    ==> #[trigger] final(self).slab(j) == old(self).slab(j) && final(self).slab(
                    j,
                ).free_list(final(mem)) == old(self).slab(j).free_list(old(mem)),
            effective_size(size, align) > 2048 ==> *final(mem) == *old(mem) && (forall|j: int|
                0 <= j < NUM_SLABS ==> #[trigger] final(self).slab(j) == old(self).slab(j))
                && match old(pmm)@.allocate(order_for(effective_size(size, align) as int) as int) {
                Some((a, rest)) => r == Some(VirtAddr((PHYSICAL_MAP_OFFSET + a) as u64))
                    && final(pmm)@ == rest,
                None => r.is_none() && final(pmm)@ == old(pmm)@,
            },
            r matches Some(v) ==> final(self).can_dealloc(
                final(mem),
                final(pmm)@,
                v.0,
                size,
                align,
            ),
            r matches Some(v) ==> is_power_of_two(align as int) ==> v.0 as int % align as int == 0,
    {
        let eff: usize = if size >= align {
            size
        } else {
            align
        };
        let ghost m0 = *mem;
        let ghost s0 = pmm@;
        let ghost h0 = *self;
        self.used_bytes = self.used_bytes.wrapping_add(eff);
        proof {
            assert forall|i: int| 0 <= i < NUM_SLABS implies (#[trigger] self.slab(i)) == h0.slab(
                i,
            ) && h0.slab(i).wf(&m0) && h0.slab(i).clear_of(&m0, s0) && h0.slab(i).cell_size()
                == class_size(i) && h0.slab(i).total() + 512 <= usize::MAX by {
                assert(old(self).slab(i) == h0.slab(i));
            }
        }
        match Self::slab_index(eff) {
            Some(idx) => {
                proof {
                    assert(h0.slab(idx as int).wf(&m0));
                    lemma_alloc_succeeds(s0, 0);
                    if s0.allocate(0).is_some() {
                        lemma_alloc_page_frame(s0);
                    }
                }
                let r = self.slabs[idx].allocate(mem, pmm);
                proof {
                    assert forall|j: int| 0 <= j < NUM_SLABS implies (#[trigger] self.slab(j)).wf(
                        mem,
                    ) && self.slab(j).cell_size() == class_size(j) && self.slab(j).clear_of(
                        mem,
                        pmm@,
                    ) && (j != idx ==> self.slab(j) == h0.slab(j) && self.slab(j).free_list(mem)
                        == h0.slab(j).free_list(&m0)) by {
                        if j != idx {
                            assert(self.slab(j) == h0.slab(j));
                            let c = h0.slab(j);
                            assert(c.wf(&m0) && c.clear_of(&m0, s0));
                            if *mem != m0 {
                                let frame = s0.allocate(0).unwrap().0;
                                assert forall|k: int|
                                    0 <= k < c.free_list(&m0).len() implies !(frame
                                    <= #[trigger] c.free_list(&m0)[k] - PHYSICAL_MAP_OFFSET < frame
                                    + 4096) by {
                                    let x = c.free_list(&m0)[k] - PHYSICAL_MAP_OFFSET;
                                    assert(!s0.frame_is_free(frame_base(x)));
                                    if frame <= x < frame + 4096 {
                                        lemma_frame_base(frame, x);
                                    }
                                }
                                c.lemma_unaffected(&m0, mem, frame, frame + 4096);
                            }
                        }
                    }
                    match r {
                        Some(v) => {
                            lemma_cell_taken(&h0, self, &m0, mem, s0, idx as int, v.0);
                            if is_power_of_two(align as int) {
                                lemma_sizes_are_powers();
                                lemma_aligned(
                                    v.0 - PHYSICAL_MAP_OFFSET,
                                    class_size(idx as int),
                                    align as int,
                                );
                            }
                        },
                        None => {
                            lemma_apart_same(&h0, self, &m0, mem);
                        },
                    }
                }
                r
            },
            None => {
                let order: usize = order_of(eff);
                proof {
                    lemma_alloc_succeeds(s0, order as int);
                }
                match alloc_pages(pmm, order) {
                    Some(phys) => {
                        proof {
                            lemma_alloc(s0, order as int);
                            let idx = s0.block_index(phys.0 as int, order as nat);
                            let first = s0.page_of(phys.0 as int);
                            lemma_block_pages_values();
                            assert(first >= 0);
                            crate::mm::buddy::lemma_ancestor_monotone(0, first, order as nat);
                            assert(page_free(s0.free, first));
                            assert(mem.contains_frame(s0.mem_start + 4096 * first));
                            assert(phys.0 % 4096 == 0) by {
                                lemma_block_bytes_pages(order as nat);
                            }
                            assert forall|i: int| 0 <= i < NUM_SLABS implies (#[trigger] self.slab(
                                i,
                            )).clear_of(mem, pmm@) by {
                                assert(h0.slab(i).clear_of(&m0, s0));
                                assert(self.slab(i) == h0.slab(i));
                            }
                            lemma_apart_same(&h0, self, &m0, mem);
                            lemma_block_taken(&h0, &m0, s0, order as nat);
                            if is_power_of_two(align as int) {
                                lemma_sizes_are_powers();
                                lemma_order_holds((eff + 4095) / 4096, 0);
                                lemma_aligned(
                                    phys.0 as int,
                                    block_bytes(order as nat),
                                    align as int,
                                );
                            }
                        }
                        Some(phys_to_virt(phys))
                    },
                    None => {
                        proof {
                            lemma_apart_same(&h0, self, &m0, mem);
                        }
                        None
                    },
                }
            },
        }
    }

    /// Takes back the memory at `ptr` of an object of `size` bytes aligned
    /// to `align`: a cell goes back to the front of its class's free list,
    /// a block of pages back to the frame allocator.
    pub fn dealloc(
        &mut self,
        mem: &mut PhysMemory,
        pmm: &mut BuddyAllocator,
        ptr: VirtAddr,
        size: usize,
        align: usize,
    )
        requires
            old(self).wf(old(mem), old(pmm)@),
            old(pmm).wf(),
            old(mem).wf(),
            old(mem).backs(old(pmm)@),
            old(self).can_dealloc(old(mem), old(pmm)@, ptr.0, size, align),
        ensures
            final(self).wf(final(mem), final(pmm)@),
            final(pmm).wf(),
            final(mem).wf(),
            final(mem).backs(final(pmm)@),
            final(self).used_bytes() == old(self).used_bytes().wrapping_sub(
                effective_size(size, align),
            ),
            effective_size(size, align) <= 2048 ==> final(pmm)@ == old(pmm)@ && final(self).slab(
                class_for(effective_size(size, align) as int),
            ).free_list(final(mem)) == seq![ptr.0] + old(self).slab(
                class_for(effective_size(size, align) as int),
            ).free_list(old(mem)) && final(mem).same_outside(
                old(mem),
                ptr.0 - PHYSICAL_MAP_OFFSET,
                ptr.0 - PHYSICAL_MAP_OFFSET + 8,
            ) && forall|j: int|
                0 <= j < NUM_SLABS && j != class_for(effective_size(size, align) as int)
                    ==> #[trigger] final(self).slab(j) == old(self).slab(j) && final(self).slab(
                    j,
                ).free_list(final(mem)) == old(self).slab(j).free_list(old(mem)),
            effective_size(size, align) > 2048 ==> *final(mem) == *old(mem) && (forall|j: int|
                0 <= j < NUM_SLABS ==> #[trigger] final(self).slab(j) == old(self).slab(j))
                && final(pmm)@ == old(pmm)@.release(
                ptr.0 - PHYSICAL_MAP_OFFSET,
                order_for(effective_size(size, align) as int) as int,
            ),
    {
        let eff: usize = if size >= align {
            size
        } else {
            align
        };
        let ghost m0 = *mem;
        let ghost s0 = pmm@;
        let ghost h0 = *self;
        self.used_bytes = self.used_bytes.wrapping_sub(eff);
        proof {
            assert forall|i: int| 0 <= i < NUM_SLABS implies (#[trigger] self.slab(i)) == h0.slab(
                i,
            ) && h0.slab(i).wf(&m0) && h0.slab(i).clear_of(&m0, s0) && h0.slab(i).cell_size()
                == class_size(i) by {
                assert(old(self).slab(i) == h0.slab(i));
            }
        }
        match Self::slab_index(eff) {
            Some(idx) => {
                proof {
                    assert(h0.slab(idx as int).wf(&m0));
                    assert(!h0.slab(idx as int).free_list(&m0).contains(ptr.0));
                }
                self.slabs[idx].free(mem, ptr);
                proof {
                    assert forall|j: int| 0 <= j < NUM_SLABS && j != idx implies #[trigger] self.slab(
                        j,
                    ) == h0.slab(j) by {}
                    lemma_cell_returned(&h0, self, &m0, mem, s0, idx as int, ptr.0);
                    lemma_apart_returned(&h0, self, &m0, mem, idx as int, ptr.0);
                }
            },
            None => {
                let order: usize = order_of(eff);
                let phys = virt_to_phys(ptr);
                proof {
                    assert forall|j: int| 0 <= j < NUM_SLABS implies #[trigger] self.slab(j)
                        == h0.slab(j) by {}
                    lemma_block_returned(self, mem, s0, phys.0 as int, order as nat);
                    lemma_apart_same(&h0, self, &m0, mem);
                }
                free_pages(pmm, phys, order);
            },
        }
    }

    /// Whether each class can count one more frame's worth of cells.
    pub fn can_grow(&self) -> (r: bool)
        requires
            self.complete(),
        ensures
            r == self.has_room(),
    {
        let mut i: usize = 0;
        while i < NUM_SLABS
            invariant
                i <= NUM_SLABS,
                self.complete(),
                forall|j: int| 0 <= j < i ==> (#[trigger] self.slab(j)).total() + 512 <= usize::MAX,
            decreases NUM_SLABS - i,
        {
            if self.slabs[i].total > usize::MAX - 512 {
                assert(!(self.slab(i as int).total() + 512 <= usize::MAX));
                return false;
            }
            i += 1;
        }
        true
    }

    /// The class that serves `size` bytes, `None` for more than 2048.
    pub fn slab_index(size: usize) -> (r: Option<usize>)
        ensures
            match r {
                Some(idx) => size <= 2048 && idx == class_for(size as int) && idx < NUM_SLABS
                    && class_size(idx as int) >= size,
                None => size > 2048,
            },
    {
        let mut idx: usize = 0;
        while idx < NUM_SLABS
            invariant
                idx <= NUM_SLABS,
                idx > 0 ==> class_size(idx - 1) < size,
            decreases NUM_SLABS - idx,
        {
            if slab_size(idx) >= size {
                return Some(idx);
            }
            idx += 1;
        }
        None
    }
}

/// A block is a whole number of pages.
pub proof fn lemma_block_bytes_pages(order: nat)
    ensures
        block_bytes(order) % 4096 == 0,
        block_bytes(order) == 4096 * block_pages(order),
        block_bytes(order) >= 4096,
{
    crate::mm::buddy::lemma_block_pages_positive(order);
    vstd::arithmetic::div_mod::lemma_mod_multiples_basic(block_pages(order) as int, 4096);
}

/// The pages of the block at `addr` are the pages whose frames lie in the
/// block's bytes.
pub proof fn lemma_block_span(s: BuddyState, addr: int, order: nat)
    requires
        s.wf(),
        s.can_release(addr, order as int),
    ensures
        addr % 4096 == 0,
        forall|q: int|
            0 <= q ==> ((#[trigger] ancestor(q, order) == s.block_index(addr, order)) <==> (addr
                <= s.mem_start + 4096 * q < addr + block_bytes(order))),
{
    let idx = s.block_index(addr, order);
    let b = block_pages(order) as int;
    let page = s.page_of(addr);
    lemma_block_bytes_pages(order);
    crate::mm::buddy::lemma_base_aligned(s.mem_start, 0);
    crate::mm::buddy::lemma_ancestor_is_quotient(page, order);
    crate::mm::buddy::lemma_block_pages_positive(order);
    // the block begins at a multiple of its size
    let off = addr - s.mem_start;
    assert(off % (4096 * b) == 0);
    vstd::arithmetic::div_mod::lemma_fundamental_div_mod(off, 4096 * b);
    let m = off / (4096 * b);
    assert(off == (4096 * b) * m);
    assert((4096 * b) * m == 4096 * (b * m)) by (nonlinear_arith);
    assert(page == b * m) by {
        vstd::arithmetic::div_mod::lemma_div_multiples_vanish(b * m, 4096);
        assert(4096 * (b * m) == (b * m) * 4096) by (nonlinear_arith);
    }
    assert(idx == m) by {
        vstd::arithmetic::div_mod::lemma_div_multiples_vanish(m, b);
        assert(b * m == m * b) by (nonlinear_arith);
    }
    vstd::arithmetic::div_mod::lemma_mod_multiples_basic(b * m, 4096);
    assert(4096 * (b * m) == (b * m) * 4096) by (nonlinear_arith);
    crate::mm::buddy::lemma_ancestor_monotone(0, page, order);
    assert forall|q: int| 0 <= q implies ((#[trigger] ancestor(q, order) == idx) <==> (addr
        <= s.mem_start + 4096 * q < addr + block_bytes(order))) by {
        lemma_ancestor_range(q, idx, order);
        lemma_first_child_is_product(idx, order);
        assert(m * b == b * m) by (nonlinear_arith);
    }
}

/// Writing into a cell that is not free in a class leaves the class as it
/// is.
pub proof fn lemma_class_kept(
    class: &SlabCache,
    m0: &PhysMemory,
    m1: &PhysMemory,
    s: BuddyState,
    ptr: u64,
)
    requires
        class.wf(m0),
        class.clear_of(m0, s),
        !class.free_list(m0).contains(ptr),
        ptr >= PHYSICAL_MAP_OFFSET,
        (ptr - PHYSICAL_MAP_OFFSET) % 8 == 0,
        m1.same_outside(m0, ptr - PHYSICAL_MAP_OFFSET, ptr - PHYSICAL_MAP_OFFSET + 8),
    ensures
        class.wf(m1),
        class.clear_of(m1, s),
        class.free_list(m1) == class.free_list(m0),
{
    let p = ptr - PHYSICAL_MAP_OFFSET;
    class.lemma_wf(m0);
    assert forall|k: int| 0 <= k < class.free_list(m0).len() implies !(p <= #[trigger] class.free_list(
        m0,
    )[k] - PHYSICAL_MAP_OFFSET < p + 8) by {
        let x = class.free_list(m0)[k];
        assert(class.free_list(m0).contains(x));
        assert(cell_ok(m0, x, class.cell_size()));
    }
    class.lemma_unaffected(m0, m1, p, p + 8);
}

/// A cell that goes back to its class leaves the heap in order and the
/// other classes as they were.
pub proof fn lemma_cell_returned(
    before: &KernelHeap,
    after: &KernelHeap,
    m0: &PhysMemory,
    m1: &PhysMemory,
    s: BuddyState,
    idx: int,
    ptr: u64,
)
    requires
        before.classes_ok(m0, s),
        0 <= idx < NUM_SLABS,
        cell_ok(m0, ptr, class_size(idx)),
        before.not_free(m0, ptr),
        !s.frame_is_free(frame_base(ptr - PHYSICAL_MAP_OFFSET)),
        after.complete(),
        forall|j: int| 0 <= j < NUM_SLABS && j != idx ==> #[trigger] after.slab(j) == before.slab(j),
        after.slab(idx).wf(m1),
        after.slab(idx).cell_size() == before.slab(idx).cell_size(),
        after.slab(idx).free_list(m1) == seq![ptr] + before.slab(idx).free_list(m0),
        m1.same_outside(m0, ptr - PHYSICAL_MAP_OFFSET, ptr - PHYSICAL_MAP_OFFSET + 8),
    ensures
        after.classes_ok(m1, s),
        forall|j: int|
            0 <= j < NUM_SLABS && j != idx ==> (#[trigger] after.slab(j)).free_list(m1)
                == before.slab(j).free_list(m0),
{
    assert forall|j: int| 0 <= j < NUM_SLABS implies (#[trigger] after.slab(j)).wf(m1)
        && after.slab(j).cell_size() == class_size(j) && after.slab(j).clear_of(m1, s) && (j != idx
        ==> after.slab(j).free_list(m1) == before.slab(j).free_list(m0)) by {
        let c = before.slab(j);
        assert(c.wf(m0) && c.clear_of(m0, s) && c.cell_size() == class_size(j));
        if j != idx {
            assert(after.slab(j) == c);
            assert(!c.free_list(m0).contains(ptr));
            lemma_class_kept(&c, m0, m1, s, ptr);
        } else {
            lemma_class_grown(&c, &after.slab(j), m0, m1, s, ptr);
        }
    }
}

/// A class that has a cell more, whose frame is not free, has no cell in a
/// free frame if it had none before.
pub proof fn lemma_class_grown(
    before: &SlabCache,
    after: &SlabCache,
    m0: &PhysMemory,
    m1: &PhysMemory,
    s: BuddyState,
    ptr: u64,
)
    requires
        before.clear_of(m0, s),
        !s.frame_is_free(frame_base(ptr - PHYSICAL_MAP_OFFSET)),
        after.free_list(m1) == seq![ptr] + before.free_list(m0),
    ensures
        after.clear_of(m1, s),
{
    let l = after.free_list(m1);
    assert forall|k: int| 0 <= k < l.len() implies !s.frame_is_free(
        frame_base(#[trigger] l[k] - PHYSICAL_MAP_OFFSET),
    ) by {
        if k > 0 {
            assert(l[k] == before.free_list(m0)[k - 1]);
        }
    }
}

/// A block of pages that goes back to the frame allocator leaves the heap
/// in order, and the allocator's free frames in memory.
pub proof fn lemma_block_returned(
    heap: &KernelHeap,
    mem: &PhysMemory,
    s0: BuddyState,
    addr: int,
    order: nat,
)
    requires
        heap.classes_ok(mem, s0),
        s0.wf(),
        mem.wf(),
        mem.backs(s0),
        s0.can_release(addr, order as int),
        mem.base() <= addr,
        addr + block_bytes(order) <= mem.base() + mem.size(),
        heap.no_cell_in(mem, addr, block_bytes(order)),
    ensures
        heap.classes_ok(mem, s0.release(addr, order as int)),
        mem.backs(s0.release(addr, order as int)),
{
    let s1 = s0.release(addr, order as int);
    let idx = s0.block_index(addr, order);
    lemma_release(s0, addr, order as int);
    lemma_block_span(s0, addr, order);
    lemma_block_bytes_pages(order);
    crate::mm::buddy::lemma_base_aligned(s0.mem_start, 0);
    assert(s0.mem_start % 4096 == 0);
    assert(s1.mem_start == s0.mem_start);
    assert forall|q: int| 0 <= q && #[trigger] page_free(s1.free, q) implies mem.contains_frame(
        s1.mem_start + 4096 * q,
    ) by {
        if !page_free(s0.free, q) {
            assert(ancestor(q, order) == idx);
        }
    }
    assert forall|i: int| 0 <= i < NUM_SLABS implies (#[trigger] heap.slab(i)).clear_of(mem, s1) by {
        let c = heap.slab(i);
        assert(c.wf(mem) && c.clear_of(mem, s0));
        c.lemma_wf(mem);
        assert forall|k: int| 0 <= k < c.free_list(mem).len() implies !s1.frame_is_free(
            frame_base(#[trigger] c.free_list(mem)[k] - PHYSICAL_MAP_OFFSET),
        ) by {
            let x = c.free_list(mem)[k] - PHYSICAL_MAP_OFFSET;
            assert(cell_ok(mem, c.free_list(mem)[k], c.cell_size()));
            assert(!s0.frame_is_free(frame_base(x)));
            let fb = frame_base(x);
            if s1.frame_is_free(fb) {
                let q = s1.page_of(fb);
                assert(page_free(s1.free, q));
                assert(ancestor(q, order) == idx);
                assert(fb == s0.mem_start + 4096 * q);
                assert(addr <= fb < addr + block_bytes(order));
                assert(addr <= x < addr + block_bytes(order));
            }
        }
    }
}

/// The cells of the frame that an allocation of one page hands out are
/// free in no class: the frame was free, and no class has a free cell in
/// such a frame.
pub proof fn lemma_fresh_cells(
    heap: &KernelHeap,
    mem: &PhysMemory,
    s0: BuddyState,
    size: int,
    j: int,
    x: u64,
)
    requires
        heap.classes_ok(mem, s0),
        s0.wf(),
        mem.wf(),
        mem.backs(s0),
        is_slab_size(size),
        s0.allocate(0).is_some(),
        0 <= j < NUM_SLABS,
        cells_of(s0.allocate(0).unwrap().0, size).contains(x),
    ensures
        !heap.slab(j).free_list(mem).contains(x),
{
    let frame = s0.allocate(0).unwrap().0;
    lemma_alloc_page_frame(s0);
    assert(page_free(s0.free, s0.page_of(frame)));
    assert(mem.contains_frame(frame));
    let cells = cells_of(frame, size);
    let k = choose|k: int| 0 <= k < cells.len() && cells[k] == x;
    lemma_cells(frame, size, 0, 0);
    lemma_cells(frame, size, k, k);
    let list = heap.slab(j).free_list(mem);
    if list.contains(x) {
        let i = choose|i: int| 0 <= i < list.len() && list[i] == x;
        assert(heap.slab(j).clear_of(mem, s0));
        assert(!s0.frame_is_free(frame_base(list[i] - PHYSICAL_MAP_OFFSET)));
    }
}

/// Where one class gets its free cells from its old list or from the
/// frame that an allocation of one page hands out, and the other classes
/// keep theirs, no cell is free in two classes afterwards.
pub proof fn lemma_apart_kept(
    before: &KernelHeap,
    after: &KernelHeap,
    m0: &PhysMemory,
    m1: &PhysMemory,
    s0: BuddyState,
    idx: int,
)
    requires
        before.wf(m0, s0),
        s0.wf(),
        m0.wf(),
        m0.backs(s0),
        0 <= idx < NUM_SLABS,
        forall|j: int|
            0 <= j < NUM_SLABS && j != idx ==> (#[trigger] after.slab(j)).free_list(m1)
                == before.slab(j).free_list(m0),
        forall|x: u64| #[trigger]
            after.slab(idx).free_list(m1).contains(x) ==> before.slab(idx).free_list(m0).contains(x)
                || (s0.allocate(0).is_some() && cells_of(
                s0.allocate(0).unwrap().0,
                class_size(idx),
            ).contains(x)),
    ensures
        after.classes_apart(m1),
{
    reveal(KernelHeap::classes_apart);
    assert forall|i: int, j: int, x: u64|
        0 <= i < NUM_SLABS && 0 <= j < NUM_SLABS && i != j && #[trigger] after.slab(i).free_list(
            m1,
        ).contains(x) implies !#[trigger] after.slab(j).free_list(m1).contains(x) by {
        let other = if i == idx {
            j
        } else {
            i
        };
        assert(after.slab(other).free_list(m1) == before.slab(other).free_list(m0));
        if i != idx && j != idx {
            assert(before.slab(i).free_list(m0).contains(x));
        } else if after.slab(j).free_list(m1).contains(x) {
            assert(before.slab(other).free_list(m0).contains(x));
            assert(after.slab(idx).free_list(m1).contains(x));
            if before.slab(idx).free_list(m0).contains(x) {
                assert(!before.slab(other).free_list(m0).contains(x));
            } else {
                lemma_fresh_cells(before, m0, s0, class_size(idx), other, x);
            }
        }
    }
}

/// A cell that a class hands out is free in no class afterwards, and no
/// cell is free in two classes.
pub proof fn lemma_cell_taken(
    before: &KernelHeap,
    after: &KernelHeap,
    m0: &PhysMemory,
    m1: &PhysMemory,
    s0: BuddyState,
    idx: int,
    v: u64,
)
    requires
        before.wf(m0, s0),
        s0.wf(),
        m0.wf(),
        m0.backs(s0),
        0 <= idx < NUM_SLABS,
        forall|j: int|
            0 <= j < NUM_SLABS && j != idx ==> (#[trigger] after.slab(j)).free_list(m1)
                == before.slab(j).free_list(m0),
        slab_take(before.slab(idx).free_list(m0), s0, class_size(idx)).0 == Some(v),
        slab_take(before.slab(idx).free_list(m0), s0, class_size(idx)).1 == after.slab(
            idx,
        ).free_list(m1),
    ensures
        after.not_free(m1, v),
        after.classes_apart(m1),
{
    let size = class_size(idx);
    let l0 = before.slab(idx).free_list(m0);
    let l1 = after.slab(idx).free_list(m1);
    assert(before.slab(idx).wf(m0) && before.slab(idx).cell_size() == size);
    before.slab(idx).lemma_wf(m0);
    if l0.len() > 0 {
        assert(l0.contains(v)) by {
            assert(l0[0] == v);
        }
        assert forall|x: u64| #[trigger] l1.contains(x) implies l0.contains(x) && x != v by {
            let k = choose|k: int| 0 <= k < l1.len() && l1[k] == x;
            assert(l0[k + 1] == x);
        }
    } else {
        let frame = s0.allocate(0).unwrap().0;
        let cells = cells_of(frame, size);
        lemma_alloc_page_frame(s0);
        assert(page_free(s0.free, s0.page_of(frame)));
        assert(m0.contains_frame(frame));
        lemma_cells(frame, size, 0, 0);
        assert(cells.contains(v)) by {
            assert(cells[0] == v);
        }
        assert forall|x: u64| #[trigger] l1.contains(x) implies cells.contains(x) && x != v by {
            let k = choose|k: int| 0 <= k < l1.len() && l1[k] == x;
            assert(cells[k + 1] == x);
            lemma_cells(frame, size, k + 1, 0);
        }
    }
    lemma_apart_kept(before, after, m0, m1, s0, idx);
    assert forall|j: int| 0 <= j < NUM_SLABS implies !(#[trigger] after.slab(j)).free_list(
        m1,
    ).contains(v) by {
        if j != idx {
            if l0.len() > 0 {
                assert(!before.slab(j).free_list(m0).contains(v)) by {
                    reveal(KernelHeap::classes_apart);
                }
            } else {
                lemma_fresh_cells(before, m0, s0, size, j, v);
            }
        }
    }
}

/// Where every class has the free cells that it had, no cell is free in
/// two classes if none was.
pub proof fn lemma_apart_same(
    before: &KernelHeap,
    after: &KernelHeap,
    m0: &PhysMemory,
    m1: &PhysMemory,
)
    requires
        before.classes_apart(m0),
        forall|j: int|
            0 <= j < NUM_SLABS ==> (#[trigger] after.slab(j)).free_list(m1) == before.slab(
                j,
            ).free_list(m0),
    ensures
        after.classes_apart(m1),
{
    reveal(KernelHeap::classes_apart);
    assert forall|i: int, j: int, x: u64|
        0 <= i < NUM_SLABS && 0 <= j < NUM_SLABS && i != j && #[trigger] after.slab(i).free_list(
            m1,
        ).contains(x) implies !#[trigger] after.slab(j).free_list(m1).contains(x) by {
        assert(before.slab(i).free_list(m0).contains(x));
        assert(after.slab(j).free_list(m1) == before.slab(j).free_list(m0));
    }
}

/// Where a cell that is free in no class goes to the front of one
/// class's free list, no cell is free in two classes if none was.
pub proof fn lemma_apart_returned(
    before: &KernelHeap,
    after: &KernelHeap,
    m0: &PhysMemory,
    m1: &PhysMemory,
    idx: int,
    ptr: u64,
)
    requires
        before.classes_apart(m0),
        before.not_free(m0, ptr),
        0 <= idx < NUM_SLABS,
        forall|j: int|
            0 <= j < NUM_SLABS && j != idx ==> (#[trigger] after.slab(j)).free_list(m1)
                == before.slab(j).free_list(m0),
        after.slab(idx).free_list(m1) == seq![ptr] + before.slab(idx).free_list(m0),
    ensures
        after.classes_apart(m1),
{
    reveal(KernelHeap::classes_apart);
    let l0 = before.slab(idx).free_list(m0);
    let l1 = after.slab(idx).free_list(m1);
    assert forall|x: u64| #[trigger] l1.contains(x) implies x == ptr || l0.contains(x) by {
        let k = choose|k: int| 0 <= k < l1.len() && l1[k] == x;
        if k > 0 {
            assert(l0[k - 1] == x);
        }
    }
    assert forall|i: int, j: int, x: u64|
        0 <= i < NUM_SLABS && 0 <= j < NUM_SLABS && i != j && #[trigger] after.slab(i).free_list(
            m1,
        ).contains(x) implies !#[trigger] after.slab(j).free_list(m1).contains(x) by {
        let other = if i == idx {
            j
        } else {
            i
        };
        assert(after.slab(other).free_list(m1) == before.slab(other).free_list(m0));
        if i != idx && j != idx {
            assert(before.slab(i).free_list(m0).contains(x));
        } else if after.slab(j).free_list(m1).contains(x) {
            assert(l1.contains(x));
            assert(before.slab(other).free_list(m0).contains(x));
            if x != ptr {
                assert(l0.contains(x));
            }
        }
    }
}

/// Every frame of the block that an allocation hands out was free, and
/// the block lies at a multiple of its size.
pub proof fn lemma_block_frames(s0: BuddyState, order: nat, f: int)
    requires
        s0.wf(),
        order < 11,
        s0.allocate(order as int).is_some(),
        s0.allocate(order as int).unwrap().0 <= f < s0.allocate(order as int).unwrap().0
            + block_bytes(order),
        f % 4096 == 0,
    ensures
        s0.frame_is_free(f),
        0 <= s0.page_of(f),
        f == s0.mem_start + 4096 * s0.page_of(f),
        page_free(s0.free, s0.page_of(f)),
{
    let a = s0.allocate(order as int).unwrap().0;
    let s1 = s0.allocate(order as int).unwrap().1;
    lemma_alloc(s0, order as int);
    lemma_block_span(s1, a, order);
    crate::mm::buddy::lemma_base_aligned(s0.mem_start, 0);
    let d = f - s0.mem_start;
    assert(d % 4096 == 0) by {
        vstd::arithmetic::div_mod::lemma_sub_mod_noop(f, s0.mem_start, 4096);
    }
    let q = d / 4096;
    vstd::arithmetic::div_mod::lemma_fundamental_div_mod(d, 4096);
    assert(f == s1.mem_start + 4096 * q);
    assert(q >= 0);
    assert(ancestor(q, order) == s1.block_index(a, order));
    assert(s0.page_of(f) == q);
}

/// The block that an allocation hands out can be given back: the
/// allocator can take it, it lies in memory at a multiple of its size, and
/// no class has a free cell in it.
pub proof fn lemma_block_taken(heap: &KernelHeap, mem: &PhysMemory, s0: BuddyState, order: nat)
    requires
        heap.classes_ok(mem, s0),
        s0.wf(),
        mem.wf(),
        mem.backs(s0),
        order < 11,
        s0.allocate(order as int).is_some(),
    ensures
        s0.allocate(order as int).unwrap().1.can_release(
            s0.allocate(order as int).unwrap().0,
            order as int,
        ),
        s0.allocate(order as int).unwrap().0 % block_bytes(order) == 0,
        mem.base() <= s0.allocate(order as int).unwrap().0,
        s0.allocate(order as int).unwrap().0 + block_bytes(order) <= mem.base() + mem.size(),
        heap.no_cell_in(mem, s0.allocate(order as int).unwrap().0, block_bytes(order)),
{
    let a = s0.allocate(order as int).unwrap().0;
    let bytes = block_bytes(order);
    lemma_alloc(s0, order as int);
    crate::mm::buddy::lemma_alloc_aligned(s0, order as int);
    lemma_block_bytes_pages(order);
    assert(a % 4096 == 0) by {
        lemma_multiple_of_multiple(a, bytes, 4096);
    }
    lemma_block_frames(s0, order, a);
    assert((a + bytes - 4096) % 4096 == 0) by {
        vstd::arithmetic::div_mod::lemma_mod_adds(a, bytes - 4096, 4096);
        vstd::arithmetic::div_mod::lemma_sub_mod_noop(bytes, 4096, 4096);
    }
    lemma_block_frames(s0, order, a + bytes - 4096);
    assert(mem.contains_frame(a));
    assert(mem.contains_frame(a + bytes - 4096));
    assert forall|i: int, k: int|
        0 <= i < NUM_SLABS && 0 <= k < heap.slab(i).free_list(mem).len() implies !(a <= (
    #[trigger] heap.slab(i).free_list(mem)[k]) - PHYSICAL_MAP_OFFSET < a + bytes) by {
        let c = heap.slab(i);
        let x = c.free_list(mem)[k] - PHYSICAL_MAP_OFFSET;
        assert(c.wf(mem) && c.clear_of(mem, s0));
        assert(!s0.frame_is_free(frame_base(x)));
        if a <= x < a + bytes {
            lemma_frame_in_block(a, bytes, x);
            lemma_block_frames(s0, order, frame_base(x));
        }
    }
}

/// The frame of an address in a block of whole pages lies in the block.
pub proof fn lemma_frame_in_block(a: int, bytes: int, x: int)
    requires
        a % 4096 == 0,
        bytes % 4096 == 0,
        a <= x < a + bytes,
    ensures
        frame_base(x) % 4096 == 0,
        a <= frame_base(x) < a + bytes,
{
    let f = frame_base(x);
    vstd::arithmetic::div_mod::lemma_fundamental_div_mod(x, 4096);
    vstd::arithmetic::div_mod::lemma_fundamental_div_mod(a, 4096);
    vstd::arithmetic::div_mod::lemma_fundamental_div_mod(a + bytes, 4096);
    vstd::arithmetic::div_mod::lemma_mod_adds(a, bytes, 4096);
    assert(f == 4096 * (x / 4096));
    vstd::arithmetic::div_mod::lemma_mod_multiples_basic(x / 4096, 4096);
    assert(a / 4096 <= x / 4096 < (a + bytes) / 4096);
}

/// Whether `n` is a power of two.
pub open spec fn is_power_of_two(n: int) -> bool
    decreases n,
{
    n == 1 || (n > 1 && n % 2 == 0 && is_power_of_two(n / 2))
}

/// Of two powers of two the smaller divides the larger.
pub proof fn lemma_power_divides(a: int, b: int)
    requires
        is_power_of_two(a),
        is_power_of_two(b),
        a <= b,
    ensures
        b % a == 0,
    decreases b,
{
    if a == 1 {
        assert(b % 1 == 0);
    } else if a == b {
        vstd::arithmetic::div_mod::lemma_mod_self_0(b);
    } else {
        let ha = a / 2;
        let hb = b / 2;
        lemma_power_divides(ha, hb);
        vstd::arithmetic::div_mod::lemma_fundamental_div_mod(hb, ha);
        let k = hb / ha;
        assert(b == k * a) by (nonlinear_arith)
            requires
                hb == ha * k,
                a == 2 * ha,
                b == 2 * hb,
        ;
        vstd::arithmetic::div_mod::lemma_mod_multiples_basic(k, a);
    }
}

/// The cell sizes and the block sizes are powers of two, up to 4 MiB.
pub proof fn lemma_sizes_are_powers()
    ensures
        forall|i: int| 0 <= i < NUM_SLABS ==> is_power_of_two(#[trigger] class_size(i)),
        forall|order: nat|
            order <= 10 ==> is_power_of_two(#[trigger] block_bytes(order)) && block_bytes(order)
                <= 0x40_0000,
        is_power_of_two(0x40_0000),
{
    assert(is_power_of_two(1));
    assert(is_power_of_two(2));
    assert(is_power_of_two(4));
    assert(is_power_of_two(8));
    assert(is_power_of_two(16));
    assert(is_power_of_two(32));
    assert(is_power_of_two(64));
    assert(is_power_of_two(128));
    assert(is_power_of_two(256));
    assert(is_power_of_two(512));
    assert(is_power_of_two(1024));
    assert(is_power_of_two(2048));
    assert(is_power_of_two(0x1000));
    assert(is_power_of_two(0x2000));
    assert(is_power_of_two(0x4000));
    assert(is_power_of_two(0x8000));
    assert(is_power_of_two(0x1_0000));
    assert(is_power_of_two(0x2_0000));
    assert(is_power_of_two(0x4_0000));
    assert(is_power_of_two(0x8_0000));
    assert(is_power_of_two(0x10_0000));
    assert(is_power_of_two(0x20_0000));
    assert(is_power_of_two(0x40_0000));
    lemma_block_pages_values();
    assert forall|order: nat| order <= 10 implies is_power_of_two(#[trigger] block_bytes(order))
        && block_bytes(order) <= 0x40_0000 by {
        if order == 0 {
        } else if order == 1 {
        } else if order == 2 {
        } else if order == 3 {
        } else if order == 4 {
        } else if order == 5 {
        } else if order == 6 {
        } else if order == 7 {
        } else if order == 8 {
        } else if order == 9 {
        } else {
            assert(order == 10);
        }
    }
}

/// An address of the direct map whose physical address is a multiple of
/// a power of two `m`, up to 4 MiB, is a multiple of every power of two
/// up to `m`.
pub proof fn lemma_aligned(x: int, m: int, align: int)
    requires
        is_power_of_two(align),
        is_power_of_two(m),
        align <= m <= 0x40_0000,
        x % m == 0,
    ensures
        (PHYSICAL_MAP_OFFSET + x) % align == 0,
{
    lemma_sizes_are_powers();
    lemma_power_divides(align, m);
    lemma_power_divides(align, 0x40_0000);
    let base = PHYSICAL_MAP_OFFSET as int;
    assert(base % 0x40_0000 == 0);
    lemma_multiple_of_multiple(x, m, align);
    lemma_multiple_of_multiple(base, 0x40_0000, align);
    vstd::arithmetic::div_mod::lemma_mod_adds(base, x, align);
}

/// A multiple of a multiple of `a` is a multiple of `a`.
pub proof fn lemma_multiple_of_multiple(x: int, m: int, a: int)
    requires
        a > 0,
        m > 0,
        x % m == 0,
        m % a == 0,
    ensures
        x % a == 0,
{
    vstd::arithmetic::div_mod::lemma_fundamental_div_mod(x, m);
    vstd::arithmetic::div_mod::lemma_fundamental_div_mod(m, a);
    let q = x / m;
    let r = m / a;
    assert(x == (r * q) * a) by (nonlinear_arith)
        requires
            x == m * q,
            m == a * r,
    ;
    vstd::arithmetic::div_mod::lemma_mod_multiples_basic(r * q, a);
}

/// The frame that the allocator hands out after `n` pages have been
/// taken.
pub open spec fn nth_frame(pmm: BuddyState, n: nat) -> int {
    pmm.take_pages(n).allocate(0).unwrap().0
}

/// Makes the heap and gives every class its first frame, the class of the
/// smallest cells first, so that the first allocations find cells ready.
/// A class for which no frame is left stays empty.
pub fn init(mem: &mut PhysMemory, pmm: &mut BuddyAllocator) -> (heap: KernelHeap)
    requires
        old(pmm).wf(),
        old(mem).wf(),
        old(mem).backs(old(pmm)@),
    ensures
        heap.wf(final(mem), final(pmm)@),
        heap.has_room(),
        heap.used_bytes() == 0,
        final(pmm).wf(),
        final(mem).wf(),
        final(mem).backs(final(pmm)@),
        final(pmm)@ == old(pmm)@.take_pages(9),
        forall|i: int|
            0 <= i < NUM_SLABS ==> (#[trigger] heap.slab(i)).used() == 0 && heap.slab(
                i,
            ).free_list(final(mem)) == (if i < old(pmm)@.free_pages {
                cells_of(nth_frame(old(pmm)@, i as nat), class_size(i))
            } else {
                Seq::<u64>::empty()
            }),
{
    let mut heap = KernelHeap::new();
    let ghost s0 = pmm@;
    let mut i: usize = 0;
    proof {
        assert(s0.take_pages(0) == s0);
        assert(heap.wf(mem, pmm@));
    }
    while i < NUM_SLABS
        invariant
            i <= NUM_SLABS,
            s0 == old(pmm)@,
            s0.wf(),
            heap.complete(),
            heap.classes_apart(mem),
            heap.used_bytes() == 0,
            pmm.wf(),
            mem.wf(),
            mem.backs(pmm@),
            pmm@ == s0.take_pages(i as nat),
            forall|j: int|
                0 <= j < NUM_SLABS ==> (#[trigger] heap.slab(j)).wf(mem) && heap.slab(j).cell_size()
                    == class_size(j) && heap.slab(j).clear_of(mem, pmm@) && heap.slab(j).used()
                    == 0 && heap.slab(j).total() <= 512,
            forall|j: int|
                i <= j < NUM_SLABS ==> (#[trigger] heap.slab(j)).free_list(mem) == Seq::<
                    u64,
                >::empty() && heap.slab(j).total() == 0,
            forall|j: int|
                0 <= j < i ==> (#[trigger] heap.slab(j)).free_list(mem) == (if j < s0.free_pages {
                    cells_of(nth_frame(s0, j as nat), class_size(j))
                } else {
                    Seq::<u64>::empty()
                }),
        decreases NUM_SLABS - i,
    {
        let ghost h0 = heap;
        let ghost m0 = *mem;
        let ghost s1 = pmm@;
        proof {
            lemma_take_pages(s0, i as nat);
            lemma_take_pages_add(s0, i as nat, 1);
            lemma_alloc_succeeds(s1, 0);
            if s1.allocate(0).is_some() {
                lemma_alloc_page_frame(s1);
            }
            assert(h0.slab(i as int).wf(&m0));
            h0.slab(i as int).lemma_wf(&m0);
            lemma_cell_offsets(class_size(i as int), 0, 0);
            lemma_cell_count(class_size(i as int));
            if s1.allocate(0).is_some() {
                assert(s1.take_pages(1) == s1.allocate(0).unwrap().1) by {
                    assert(s1.allocate(0).unwrap().1.take_pages(0) == s1.allocate(0).unwrap().1);
                }
            } else {
                assert(s1.take_pages(1) == s1);
            }
        }
        heap.slabs[i].grow(mem, pmm);
        proof {
            assert forall|j: int| 0 <= j < NUM_SLABS implies (#[trigger] heap.slab(j)).wf(mem)
                && heap.slab(j).cell_size() == class_size(j) && heap.slab(j).clear_of(mem, pmm@)
                && heap.slab(j).used() == 0 && heap.slab(j).total() <= 512 && (j != i
                ==> heap.slab(j).free_list(mem) == h0.slab(j).free_list(&m0)) by {
                if j != i {
                    assert(heap.slab(j) == h0.slab(j));
                    let c = h0.slab(j);
                    assert(c.wf(&m0) && c.clear_of(&m0, s1));
                    if s1.allocate(0).is_some() {
                        let frame = s1.allocate(0).unwrap().0;
                        assert forall|k: int| 0 <= k < c.free_list(&m0).len() implies !(frame
                            <= #[trigger] c.free_list(&m0)[k] - PHYSICAL_MAP_OFFSET < frame + 4096) by {
                            let x = c.free_list(&m0)[k] - PHYSICAL_MAP_OFFSET;
                            assert(!s1.frame_is_free(frame_base(x)));
                            if frame <= x < frame + 4096 {
                                lemma_frame_base(frame, x);
                            }
                        }
                        c.lemma_unaffected(&m0, mem, frame, frame + 4096);
                    }
                }
            }
            assert(heap.slab(i as int).free_list(mem) == (if i < s0.free_pages {
                cells_of(nth_frame(s0, i as nat), class_size(i as int))
            } else {
                Seq::<u64>::empty()
            })) by {
                if s1.allocate(0).is_some() {
                    assert(cells_of(s1.allocate(0).unwrap().0, class_size(i as int)) + Seq::<
                        u64,
                    >::empty() =~= cells_of(s1.allocate(0).unwrap().0, class_size(i as int)));
                }
            }
            lemma_apart_kept(&h0, &heap, &m0, mem, s1, i as int);
        }
        i += 1;
    }
    heap
}

/// How many bytes of the heap are handed out.
pub fn used(heap: &KernelHeap) -> (r: usize)
    ensures
        r == heap.used_bytes(),
{
    heap.used_bytes
}

/// Two multiples of `size` that differ lie at least `size` apart.
pub proof fn lemma_multiples_apart(x: int, y: int, size: int)
    requires
        size > 0,
        x % size == 0,
        y % size == 0,
        x != y,
    ensures
        x + size <= y || y + size <= x,
{
    vstd::arithmetic::div_mod::lemma_fundamental_div_mod(x, size);
    vstd::arithmetic::div_mod::lemma_fundamental_div_mod(y, size);
    let qx = x / size;
    let qy = y / size;
    if qx < qy {
        assert(size * qx + size <= size * qy) by (nonlinear_arith)
            requires
                qx + 1 <= qy,
                size > 0,
        ;
    } else {
        assert(qx != qy);
        assert(size * qy + size <= size * qx) by (nonlinear_arith)
            requires
                qy + 1 <= qx,
                size > 0,
        ;
    }
}

/// A cell lies within one frame.
pub proof fn lemma_cell_in_frame(x: int, size: int)
    requires
        is_slab_size(size),
        0 <= x,
        x % size == 0,
    ensures
        frame_base(x) <= x,
        x + size <= frame_base(x) + 4096,
        frame_base(x) % 4096 == 0,
{
    let fb = frame_base(x);
    let r = x % 4096;
    // r is a multiple of size below 4096
    let c = 4096int / size;
    lemma_slab_size_divides(size);
    vstd::arithmetic::div_mod::lemma_fundamental_div_mod(x, 4096);
    let q = x / 4096;
    assert(x == 4096 * q + r);
    assert(4096 * q == (c * q) * size) by (nonlinear_arith)
        requires
            c * size == 4096,
    ;
    vstd::arithmetic::div_mod::lemma_mod_multiples_vanish(c * q, r, size);
    assert(((c * q) * size + r) % size == r % size) by {
        assert(size * (c * q) == (c * q) * size) by (nonlinear_arith);
    }
    assert(r % size == 0);
    if r + size > 4096 {
        lemma_multiples_apart(r, 4096, size);
        vstd::arithmetic::div_mod::lemma_mod_multiples_basic(c, size);
    }
}

/// Two cells taken one after the other from a class are different and do
/// not overlap.
pub proof fn lemma_take_twice_apart(list: Seq<u64>, pmm: BuddyState, size: int)
    requires
        is_slab_size(size),
        pmm.wf(),
        list.no_duplicates(),
        forall|i: int|
            0 <= i < list.len() ==> (#[trigger] list[i]) >= PHYSICAL_MAP_OFFSET && (list[i]
                - PHYSICAL_MAP_OFFSET) % size == 0 && !pmm.frame_is_free(
                frame_base(list[i] - PHYSICAL_MAP_OFFSET),
            ),
        forall|p: int|
            0 <= p && #[trigger] page_free(pmm.free, p) ==> pmm.mem_start + 4096 * p + 4096
                <= 0x8000_0000_0000,
    ensures
        ({
            let first = slab_take(list, pmm, size);
            let second = slab_take(first.1, first.2, size);
            first.0.is_some() && second.0.is_some() ==> first.0.unwrap() + size
                <= second.0.unwrap() || second.0.unwrap() + size <= first.0.unwrap()
        }),
{
    let first = slab_take(list, pmm, size);
    let second = slab_take(first.1, first.2, size);
    if first.0.is_some() && second.0.is_some() {
        if list.len() >= 2 {
            assert(list.drop_first()[0] == list[1]);
            assert(list[0] != list[1]);
            lemma_multiples_apart(
                list[0] - PHYSICAL_MAP_OFFSET,
                list[1] - PHYSICAL_MAP_OFFSET,
                size,
            );
        } else if list.len() == 1 {
            assert(list.drop_first().len() == 0);
            let a = pmm.allocate(0).unwrap().0;
            lemma_alloc_page_frame(pmm);
            assert(page_free(pmm.free, pmm.page_of(a)));
            lemma_cells(a, size, 0, 0);
            let x = list[0] - PHYSICAL_MAP_OFFSET;
            lemma_cell_in_frame(x, size);
            let fb = frame_base(x);
            assert(fb != a);
            if fb < a {
                lemma_multiples_apart(fb, a, 4096);
            } else {
                lemma_multiples_apart(a, fb, 4096);
            }
        } else {
            let a = pmm.allocate(0).unwrap().0;
            lemma_alloc_page_frame(pmm);
            assert(page_free(pmm.free, pmm.page_of(a)));
            lemma_cells(a, size, 0, 1);
            lemma_cells(a, size, 1, 0);
            lemma_cell_offsets(size, 0, 1);
            assert(cells_of(a, size).drop_first()[0] == cells_of(a, size)[1]);
        }
    }
}

/// A cell that has been given back is the next to be handed out.
pub proof fn lemma_free_then_take(list: Seq<u64>, pmm: BuddyState, size: int, ptr: u64)
    ensures
        slab_take(seq![ptr] + list, pmm, size) == (Some(ptr), list, pmm),
{
    assert((seq![ptr] + list).drop_first() =~= list);
}

} // verus!
