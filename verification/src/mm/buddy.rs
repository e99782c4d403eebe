//! The buddy system as mathematics: which blocks are free at which order,
//! what allocation and release do to that, and why the bookkeeping stays
//! consistent.
//!
//! A block of order `o` and index `i` covers the pages
//! `[i * 2^o, (i + 1) * 2^o)`, counted from the allocator's first page. Its
//! parent is block `i / 2` of order `o + 1`; its buddy is the other child of
//! that parent.

use vstd::prelude::*;

verus! {

/// Number of block orders.
pub open spec fn orders() -> int {
    11
}

/// Number of pages in a block of order `order`.
pub open spec fn block_pages(order: nat) -> nat
    decreases order,
{
    if order == 0 {
        1
    } else {
        2 * block_pages((order - 1) as nat)
    }
}

/// Index of the block `k` orders up that contains block `i`.
pub open spec fn ancestor(i: int, k: nat) -> int
    decreases k,
{
    if k == 0 {
        i
    } else {
        ancestor(i / 2, (k - 1) as nat)
    }
}

/// Index of the lowest block `k` orders down inside block `i`.
pub open spec fn first_child(i: int, k: nat) -> int
    decreases k,
{
    if k == 0 {
        i
    } else {
        first_child(2 * i, (k - 1) as nat)
    }
}

/// Number of blocks an order can hold: `2^20` pages in all.
pub open spec fn order_capacity(order: nat) -> int
    decreases 10 - order,
{
    if order >= 10 {
        1024
    } else {
        2 * order_capacity(order + 1)
    }
}

/// Number of bytes in a block of order `order`.
pub open spec fn block_bytes(order: nat) -> int {
    4096 * (block_pages(order) as int)
}

/// Index of the buddy of block `i`.
pub open spec fn buddy_of(i: int) -> int {
    if i % 2 == 0 {
        i + 1
    } else {
        i - 1
    }
}

/// The number of pages of each order's blocks.
pub proof fn lemma_block_pages_values()
    ensures
        block_pages(0) == 1,
        block_pages(1) == 2,
        block_pages(2) == 4,
        block_pages(3) == 8,
        block_pages(4) == 16,
        block_pages(5) == 32,
        block_pages(6) == 64,
        block_pages(7) == 128,
        block_pages(8) == 256,
        block_pages(9) == 512,
        block_pages(10) == 1024,
{
    reveal_with_fuel(block_pages, 12);
}

/// The number of blocks that each order can hold.
pub proof fn lemma_order_capacity_values()
    ensures
        order_capacity(0) == 1048576,
        order_capacity(1) == 524288,
        order_capacity(2) == 262144,
        order_capacity(3) == 131072,
        order_capacity(4) == 65536,
        order_capacity(5) == 32768,
        order_capacity(6) == 16384,
        order_capacity(7) == 8192,
        order_capacity(8) == 4096,
        order_capacity(9) == 2048,
        order_capacity(10) == 1024,
{
    reveal_with_fuel(order_capacity, 12);
}

/// Every order's blocks together cover the same `2^20` pages.
pub proof fn lemma_capacity_times_pages(order: nat)
    requires
        order <= 10,
    ensures
        order_capacity(order) * block_pages(order) == 1048576,
{
    lemma_block_pages_values();
    lemma_order_capacity_values();
}

/// Going up `k + 1` orders is going up `k` orders and then one more.
pub proof fn lemma_ancestor_step(i: int, k: nat)
    ensures
        ancestor(i, k + 1) == ancestor(i, k) / 2,
    decreases k,
{
    if k == 0 {
        assert(ancestor(i, 1) == ancestor(i / 2, 0));
    } else {
        lemma_ancestor_step(i / 2, (k - 1) as nat);
        assert(ancestor(i, k + 1) == ancestor(i / 2, k));
    }
}

/// Going up `a` orders and then `b` more is going up `a + b` orders.
pub proof fn lemma_ancestor_add(i: int, a: nat, b: nat)
    ensures
        ancestor(ancestor(i, a), b) == ancestor(i, a + b),
    decreases a,
{
    if a == 0 {
    } else {
        lemma_ancestor_add(i / 2, (a - 1) as nat, b);
        assert(ancestor(i, a + b) == ancestor(i / 2, (a + b - 1) as nat));
    }
}

/// The block above a block of an order lies within the order above.
pub proof fn lemma_ancestor_bounds(i: int, order: nat, k: nat)
    requires
        0 <= i < order_capacity(order),
        order + k <= 10,
    ensures
        0 <= ancestor(i, k) < order_capacity(order + k),
    decreases k,
{
    if k > 0 {
        lemma_ancestor_bounds(i, order, (k - 1) as nat);
        lemma_ancestor_step(i, (k - 1) as nat);
        assert(order_capacity((order + k - 1) as nat) == 2 * order_capacity(order + k));
    }
}

/// Of two blocks, the higher one lies in no lower block of the orders
/// above.
pub proof fn lemma_ancestor_monotone(i: int, j: int, k: nat)
    requires
        0 <= i <= j,
    ensures
        0 <= ancestor(i, k) <= ancestor(j, k),
    decreases k,
{
    if k > 0 {
        lemma_ancestor_monotone(i / 2, j / 2, (k - 1) as nat);
    }
}

/// Going down `k + 1` orders is going down `k` orders and then one more.
pub proof fn lemma_first_child_step(i: int, k: nat)
    ensures
        first_child(i, k + 1) == 2 * first_child(i, k),
    decreases k,
{
    if k == 0 {
        assert(first_child(i, 1) == first_child(2 * i, 0));
    } else {
        lemma_first_child_step(2 * i, (k - 1) as nat);
        assert(first_child(i, k + 1) == first_child(2 * i, k));
    }
}

/// A block has at least one page.
pub proof fn lemma_block_pages_positive(k: nat)
    ensures
        block_pages(k) >= 1,
    decreases k,
{
    if k > 0 {
        lemma_block_pages_positive((k - 1) as nat);
    }
}

/// The lowest block `k` orders down is block `i * 2^k`.
pub proof fn lemma_first_child_is_product(i: int, k: nat)
    ensures
        first_child(i, k) == i * block_pages(k),
    decreases k,
{
    if k == 0 {
        assert(block_pages(0) == 1);
        assert(i * 1 == i);
    } else {
        lemma_first_child_is_product(i, (k - 1) as nat);
        lemma_first_child_step(i, (k - 1) as nat);
        let b = block_pages((k - 1) as nat) as int;
        assert(block_pages(k) == 2 * b);
        assert(first_child(i, k) == 2 * (i * b));
        assert(2 * (i * b) == i * (2 * b)) by (nonlinear_arith);
    }
}

/// Every block between the lowest and the highest child of `i`, `k` orders
/// down, has `i` as its ancestor, and no other block has.
pub proof fn lemma_ancestor_range(j: int, i: int, k: nat)
    requires
        0 <= j,
        0 <= i,
    ensures
        (ancestor(j, k) == i) <==> (first_child(i, k) <= j < first_child(i, k) + block_pages(k)),
    decreases k,
{
    if k > 0 {
        lemma_ancestor_step(j, (k - 1) as nat);
        lemma_first_child_step(i, (k - 1) as nat);
        lemma_ancestor_monotone(0, j, (k - 1) as nat);
        let a = ancestor(j, (k - 1) as nat);
        // a / 2 == i  <==>  2i <= a < 2i + 2
        lemma_ancestor_range(j, 2 * i, (k - 1) as nat);
        lemma_ancestor_range(j, 2 * i + 1, (k - 1) as nat);
        lemma_first_child_is_product(2 * i, (k - 1) as nat);
        lemma_first_child_is_product(2 * i + 1, (k - 1) as nat);
        lemma_first_child_is_product(i, (k - 1) as nat);
        let b = block_pages((k - 1) as nat) as int;
        assert((2 * i) * b == 2 * (i * b)) by (nonlinear_arith);
        assert((2 * i + 1) * b == 2 * (i * b) + b) by (nonlinear_arith);
    }
}

/// The lowest block `k` orders down, and the one after it, lie in the
/// block one came from.
pub proof fn lemma_first_child_ancestor(i: int, k: nat)
    requires
        0 <= i,
    ensures
        ancestor(first_child(i, k), k) == i,
        0 <= first_child(i, k),
        k >= 1 ==> ancestor(first_child(i, k) + 1, k) == i,
{
    lemma_first_child_is_product(i, k);
    assert(0 <= i * block_pages(k)) by (nonlinear_arith)
        requires
            0 <= i,
    ;
    lemma_block_pages_positive(k);
    lemma_ancestor_range(first_child(i, k), i, k);
    if k >= 1 {
        assert(block_pages(k) == 2 * block_pages((k - 1) as nat));
        lemma_ancestor_range(first_child(i, k) + 1, i, k);
    }
}

/// The lowest block `k` orders down, and where `k` is not zero the one
/// after it, lie within their order.
pub proof fn lemma_first_child_bounds(i: int, order: nat, k: nat)
    requires
        0 <= i < order_capacity(order),
        k <= order <= 10,
    ensures
        0 <= first_child(i, k),
        first_child(i, k) + 1 < order_capacity((order - k) as nat) || k == 0,
        first_child(i, k) < order_capacity((order - k) as nat),
    decreases k,
{
    if k > 0 {
        lemma_first_child_bounds(i, order, (k - 1) as nat);
        lemma_first_child_step(i, (k - 1) as nat);
        assert(order_capacity((order - k) as nat) == 2 * order_capacity((order - k + 1) as nat));
    }
}

/// Which blocks are free: one set of block indices per order.
pub type FreeSets = Seq<Set<int>>;

/// The free sets with block `i` added at order `o`.
pub open spec fn fs_insert(fs: FreeSets, o: int, i: int) -> FreeSets {
    fs.update(o, fs[o].insert(i))
}

/// The free sets with block `i` taken out at order `o`.
pub open spec fn fs_remove(fs: FreeSets, o: int, i: int) -> FreeSets {
    fs.update(o, fs[o].remove(i))
}

/// Consistency of the free sets: each block index is in range, and no free
/// block lies inside another free block, so that every page is free at one
/// order at most.
pub open spec fn fs_core(fs: FreeSets) -> bool {
    &&& fs.len() == orders()
    &&& forall|o: int| 0 <= o < orders() ==> (#[trigger] fs[o]).finite()
    &&& forall|o: int, i: int|
        0 <= o < orders() && #[trigger] fs[o].contains(i) ==> 0 <= i < order_capacity(o as nat)
    &&& forall|o: int, i: int, k: nat|
        #![trigger fs[o].contains(i), ancestor(i, k)]
        0 <= o && 1 <= k && o + k < orders() && fs[o].contains(i) ==> !fs[o + k].contains(
            ancestor(i, k),
        )
}

/// No two buddies are free at the same order, below the highest order.
pub open spec fn fs_coalesced(fs: FreeSets) -> bool {
    forall|o: int, i: int|
        0 <= o < orders() - 1 && #[trigger] fs[o].contains(i) ==> !fs[o].contains(buddy_of(i))
}

/// Number of free pages in the orders below `n`.
pub open spec fn fs_count(fs: FreeSets, n: nat) -> nat
    decreases n,
{
    if n == 0 {
        0
    } else {
        fs_count(fs, (n - 1) as nat) + fs[n - 1].len() * block_pages((n - 1) as nat)
    }
}

/// Whether page `p` lies in a free block of some order.
pub open spec fn page_free(fs: FreeSets, p: int) -> bool {
    exists|k: nat| k < orders() && #[trigger] fs[k as int].contains(ancestor(p, k))
}

/// No page of block `i` of order `o` is free.
pub open spec fn block_in_use(fs: FreeSets, o: nat, i: int) -> bool {
    forall|p: int| 0 <= p && #[trigger] ancestor(p, o) == i ==> !page_free(fs, p)
}

/// What the count becomes when the free blocks of one order are replaced.
pub proof fn lemma_count_update(fs: FreeSets, o: int, s: Set<int>, n: nat)
    requires
        0 <= o < fs.len(),
        n <= fs.len(),
    ensures
        fs_count(fs.update(o, s), n) == fs_count(fs, n) + (if o < n {
            (s.len() - fs[o].len()) * block_pages(o as nat)
        } else {
            0
        }),
    decreases n,
{
    if n > 0 {
        lemma_count_update(fs, o, s, (n - 1) as nat);
        if o == n - 1 {
            let a = s.len() as int;
            let b = fs[o].len() as int;
            let c = block_pages(o as nat) as int;
            assert(a * c == b * c + (a - b) * c) by (nonlinear_arith);
        }
    }
}

/// A block that is put in adds its pages to the count.
pub proof fn lemma_count_insert(fs: FreeSets, o: int, i: int)
    requires
        fs.len() == orders(),
        0 <= o < orders(),
        fs[o].finite(),
        !fs[o].contains(i),
    ensures
        fs_count(fs_insert(fs, o, i), orders() as nat) == fs_count(fs, orders() as nat)
            + block_pages(o as nat),
{
    lemma_count_update(fs, o, fs[o].insert(i), orders() as nat);
    assert(1 * block_pages(o as nat) == block_pages(o as nat)) by (nonlinear_arith);
}

/// A block that is taken out takes its pages from the count.
pub proof fn lemma_count_remove(fs: FreeSets, o: int, i: int)
    requires
        fs.len() == orders(),
        0 <= o < orders(),
        fs[o].finite(),
        fs[o].contains(i),
    ensures
        fs_count(fs_remove(fs, o, i), orders() as nat) + block_pages(o as nat) == fs_count(
            fs,
            orders() as nat,
        ),
{
    lemma_count_update(fs, o, fs[o].remove(i), orders() as nat);
    assert((-1) * block_pages(o as nat) == -block_pages(o as nat)) by (nonlinear_arith);
}

/// A free block is counted: the count is at least its size.
pub proof fn lemma_count_at_least(fs: FreeSets, o: int, i: int, n: nat)
    requires
        0 <= o < n <= fs.len(),
        fs[o].finite(),
        fs[o].contains(i),
    ensures
        fs_count(fs, n) >= block_pages(o as nat),
    decreases n,
{
    if o == n - 1 {
        let a = fs[o].len() as int;
        let c = block_pages(o as nat) as int;
        assert(fs[o].len() >= 1) by {
            if fs[o].len() == 0 {
                assert(fs[o] =~= Set::<int>::empty());
            }
        }
        assert(a * c >= c) by (nonlinear_arith)
            requires
                a >= 1,
                c >= 0,
        ;
    } else {
        lemma_count_at_least(fs, o, i, (n - 1) as nat);
    }
}

/// Taking a block out keeps the free sets consistent, and frees no page.
pub proof fn lemma_remove_core(fs: FreeSets, o: int, i: int)
    requires
        fs_core(fs),
        0 <= o < orders(),
    ensures
        fs_core(fs_remove(fs, o, i)),
        fs_coalesced(fs) ==> fs_coalesced(fs_remove(fs, o, i)),
{
    let r = fs_remove(fs, o, i);
    assert forall|o2: int, i2: int, k: nat|
        #![trigger r[o2].contains(i2), ancestor(i2, k)]
        0 <= o2 && 1 <= k && o2 + k < orders() && r[o2].contains(i2) implies !r[o2 + k].contains(
        ancestor(i2, k),
    ) by {
        assert(fs[o2].contains(i2));
        assert(!fs[o2 + k].contains(ancestor(i2, k)));
    }
    if fs_coalesced(fs) {
        assert forall|o2: int, i2: int|
            0 <= o2 < orders() - 1 && #[trigger] r[o2].contains(i2) implies !r[o2].contains(
            buddy_of(i2),
        ) by {
            assert(fs[o2].contains(i2));
        }
    }
}

/// After a free block is taken out, exactly its pages are no longer free.
pub proof fn lemma_remove_pages(fs: FreeSets, o: int, i: int)
    requires
        fs_core(fs),
        0 <= o < orders(),
        fs[o].contains(i),
    ensures
        forall|p: int|
            0 <= p ==> (#[trigger] page_free(fs_remove(fs, o, i), p) == (page_free(fs, p)
                && ancestor(p, o as nat) != i)),
{
    let r = fs_remove(fs, o, i);
    assert forall|p: int| 0 <= p implies (#[trigger] page_free(r, p) == (page_free(fs, p)
        && ancestor(p, o as nat) != i)) by {
        if page_free(r, p) {
            let k = choose|k: nat| k < orders() && #[trigger] r[k as int].contains(ancestor(p, k));
            assert(fs[k as int].contains(ancestor(p, k)));
            if ancestor(p, o as nat) == i {
                if k < o {
                    lemma_ancestor_add(p, k, (o - k) as nat);
                    assert(!fs[k + (o - k)].contains(ancestor(ancestor(p, k), (o - k) as nat)));
                } else if k > o {
                    lemma_ancestor_add(p, o as nat, (k - o) as nat);
                    assert(!fs[o + (k - o)].contains(ancestor(i, (k - o) as nat)));
                }
            }
        }
        if page_free(fs, p) && ancestor(p, o as nat) != i {
            let k = choose|k: nat| k < orders() && #[trigger] fs[k as int].contains(ancestor(p, k));
            assert(r[k as int].contains(ancestor(p, k)));
        }
    }
}

/// A block none of whose pages is free can be put in: the free sets stay
/// consistent, and exactly its pages become free.
pub proof fn lemma_insert_core(fs: FreeSets, o: int, i: int)
    requires
        fs_core(fs),
        0 <= o < orders(),
        0 <= i < order_capacity(o as nat),
        block_in_use(fs, o as nat, i),
    ensures
        fs_core(fs_insert(fs, o, i)),
        !fs[o].contains(i),
        forall|p: int|
            0 <= p ==> (#[trigger] page_free(fs_insert(fs, o, i), p) == (page_free(fs, p)
                || ancestor(p, o as nat) == i)),
{
    let r = fs_insert(fs, o, i);
    // the lowest page of the block stands for the block and what lies above it
    let p0 = first_child(i, o as nat);
    lemma_first_child_ancestor(i, o as nat);
    assert(!page_free(fs, p0));
    assert forall|k: nat| o + k < orders() implies !fs[o + k].contains(ancestor(i, k)) by {
        lemma_ancestor_add(p0, o as nat, k);
        let ok = (o + k) as nat;
        assert(!(ok < orders() && fs[ok as int].contains(ancestor(p0, ok))));
    }
    assert(!fs[o].contains(i)) by {
        assert(!fs[o + 0].contains(ancestor(i, 0)));
    }
    assert forall|o2: int, i2: int, k: nat|
        #![trigger r[o2].contains(i2), ancestor(i2, k)]
        0 <= o2 && 1 <= k && o2 + k < orders() && r[o2].contains(i2) implies !r[o2 + k].contains(
        ancestor(i2, k),
    ) by {
        if o2 == o && i2 == i {
            assert(!fs[o + k].contains(ancestor(i, k)));
        } else {
            assert(fs[o2].contains(i2));
            assert(!fs[o2 + k].contains(ancestor(i2, k)));
            if o2 + k == o && ancestor(i2, k) == i {
                // a free block below the new one: its lowest page is free
                let q = first_child(i2, o2 as nat);
                lemma_first_child_ancestor(i2, o2 as nat);
                lemma_ancestor_add(q, o2 as nat, k);
                assert(fs[(o2 as nat) as int].contains(ancestor(q, o2 as nat)));
                assert(page_free(fs, q));
            }
        }
    }
    assert forall|p: int| 0 <= p implies (#[trigger] page_free(r, p) == (page_free(fs, p)
        || ancestor(p, o as nat) == i)) by {
        if page_free(r, p) {
            let k = choose|k: nat| k < orders() && #[trigger] r[k as int].contains(ancestor(p, k));
            if !(k == o && ancestor(p, k) == i) {
                assert(fs[k as int].contains(ancestor(p, k)));
            }
        }
        if page_free(fs, p) {
            let k = choose|k: nat| k < orders() && #[trigger] fs[k as int].contains(ancestor(p, k));
            assert(r[k as int].contains(ancestor(p, k)));
        }
        if ancestor(p, o as nat) == i {
            assert(r[(o as nat) as int].contains(ancestor(p, o as nat)));
        }
    }
}

/// The pages below `2^20` that are free.
pub open spec fn free_page_set(fs: FreeSets) -> Set<int> {
    Set::new(|p: int| 0 <= p < 1048576 && page_free(fs, p))
}

/// With no free block there is nothing to count.
pub proof fn lemma_count_empty(fs: FreeSets, n: nat)
    requires
        n <= fs.len(),
        forall|o: int, i: int| 0 <= o < n ==> !(#[trigger] fs[o].contains(i)),
    ensures
        fs_count(fs, n) == 0,
    decreases n,
{
    if n > 0 {
        lemma_count_empty(fs, (n - 1) as nat);
        assert(fs[n - 1] =~= Set::<int>::empty());
    }
}

/// A free page lies below `2^20`.
pub proof fn lemma_free_page_in_range(fs: FreeSets, p: int)
    requires
        fs_core(fs),
        0 <= p,
        page_free(fs, p),
    ensures
        p < 1048576,
{
    let k = choose|k: nat| k < orders() && #[trigger] fs[k as int].contains(ancestor(p, k));
    let i = ancestor(p, k);
    lemma_ancestor_monotone(0, p, k);
    lemma_ancestor_range(p, i, k);
    lemma_first_child_is_product(i, k);
    lemma_capacity_times_pages(k);
    let b = block_pages(k) as int;
    let cap = order_capacity(k);
    assert((i + 1) * b <= cap * b) by (nonlinear_arith)
        requires
            i + 1 <= cap,
            b >= 0,
    ;
    assert((i + 1) * b == i * b + b) by (nonlinear_arith);
}

/// The count of free pages is the number of pages that are free, so it
/// never exceeds `2^20`.
pub proof fn lemma_count_is_page_count(fs: FreeSets)
    requires
        fs_core(fs),
    ensures
        free_page_set(fs).finite(),
        fs_count(fs, orders() as nat) == free_page_set(fs).len(),
        fs_count(fs, orders() as nat) <= 1048576,
    decreases fs_count(fs, orders() as nat),
{
    let all = vstd::set_lib::set_int_range(0, 1048576);
    vstd::set_lib::lemma_int_range(0, 1048576);
    let pages = free_page_set(fs);
    assert(pages.subset_of(all));
    vstd::set_lib::lemma_len_subset(pages, all);
    if exists|o: int, i: int| 0 <= o < orders() && #[trigger] fs[o].contains(i) {
        let (o, i) = choose|o: int, i: int| 0 <= o < orders() && #[trigger] fs[o].contains(i);
        let rest = fs_remove(fs, o, i);
        lemma_remove_core(fs, o, i);
        lemma_count_remove(fs, o, i);
        lemma_remove_pages(fs, o, i);
        lemma_block_pages_positive(o as nat);
        lemma_count_is_page_count(rest);
        let lo = first_child(i, o as nat);
        let block = vstd::set_lib::set_int_range(lo, lo + block_pages(o as nat));
        vstd::set_lib::lemma_int_range(lo, lo + block_pages(o as nat));
        lemma_first_child_ancestor(i, o as nat);
        assert forall|p: int| block.contains(p) implies pages.contains(p) by {
            lemma_ancestor_range(p, i, o as nat);
            assert(fs[(o as nat) as int].contains(ancestor(p, o as nat)));
            lemma_free_page_in_range(fs, p);
        }
        assert forall|p: int| 0 <= p implies (block.contains(p) <==> ancestor(p, o as nat) == i) by {
            lemma_ancestor_range(p, i, o as nat);
        }
        assert(pages =~= free_page_set(rest) + block);
        assert(free_page_set(rest).disjoint(block));
        vstd::set_lib::lemma_set_disjoint_lens(free_page_set(rest), block);
    } else {
        lemma_count_empty(fs, orders() as nat);
        assert forall|p: int| !pages.contains(p) by {
            if page_free(fs, p) {
                let k = choose|k: nat| k < orders() && #[trigger] fs[k as int].contains(ancestor(p, k));
                assert(fs[k as int].contains(ancestor(p, k)));
            }
        }
        assert(pages =~= Set::<int>::empty());
    }
}

/// Whether some block of order `o` is free.
pub open spec fn has_free(fs: FreeSets, o: int) -> bool {
    exists|i: int| #[trigger] fs[o].contains(i)
}

/// The lowest order from `order` up that has a free block, or `orders()` if
/// none has.
pub open spec fn first_order_with_free(fs: FreeSets, order: int) -> int
    decreases orders() - order,
{
    if order < 0 || order >= orders() {
        orders()
    } else if has_free(fs, order) {
        order
    } else {
        first_order_with_free(fs, order + 1)
    }
}

/// Whether `i` is the lowest index in `s`.
pub open spec fn is_lowest(s: Set<int>, i: int) -> bool {
    s.contains(i) && forall|j: int| s.contains(j) ==> i <= j
}

/// The lowest index in `s`.
pub open spec fn lowest(s: Set<int>) -> int {
    choose|i: int| is_lowest(s, i)
}

/// A set has one lowest index at most.
pub proof fn lemma_lowest_unique(s: Set<int>, i: int)
    requires
        is_lowest(s, i),
    ensures
        lowest(s) == i,
{
    assert(is_lowest(s, lowest(s)));
}

/// A set of indices that are not negative and that is not empty has a
/// lowest index.
pub proof fn lemma_lowest_exists(s: Set<int>, w: int)
    requires
        s.contains(w),
        forall|j: int| s.contains(j) ==> 0 <= j,
    ensures
        is_lowest(s, lowest(s)),
    decreases w,
{
    if exists|j: int| s.contains(j) && j < w {
        let j = choose|j: int| s.contains(j) && j < w;
        lemma_lowest_exists(s, j);
    } else {
        assert(is_lowest(s, w));
    }
}

/// The free sets after block `idx` of order `from` has been taken and split
/// down to order `to`: the block is gone, and at each order in between the
/// upper half of the part that was split there is free.
pub open spec fn split_sets(fs: FreeSets, from: int, idx: int, to: int) -> FreeSets {
    Seq::new(
        fs.len(),
        |o: int|
            if o == from {
                fs[o].remove(idx)
            } else if to <= o < from {
                fs[o].insert(first_child(idx, (from - o) as nat) + 1)
            } else {
                fs[o]
            },
    )
}

/// Splitting a free block down keeps the free sets consistent; the pages of
/// the lowest part are taken, all others stay as they were.
pub proof fn lemma_split(fs: FreeSets, from: int, idx: int, to: int)
    requires
        fs_core(fs),
        fs_coalesced(fs),
        0 <= to <= from < orders(),
        fs[from].contains(idx),
    ensures
        fs_core(split_sets(fs, from, idx, to)),
        fs_coalesced(split_sets(fs, from, idx, to)),
        fs_count(split_sets(fs, from, idx, to), orders() as nat) + block_pages(to as nat)
            == fs_count(fs, orders() as nat),
        0 <= first_child(idx, (from - to) as nat) < order_capacity(to as nat),
        forall|p: int|
            0 <= p ==> (#[trigger] page_free(split_sets(fs, from, idx, to), p) == (page_free(fs, p)
                && ancestor(p, to as nat) != first_child(idx, (from - to) as nat))),
        forall|p: int|
            0 <= p && #[trigger] ancestor(p, to as nat) == first_child(idx, (from - to) as nat)
                ==> page_free(fs, p),
    decreases from - to,
{
    let t = split_sets(fs, from, idx, to);
    let hole = first_child(idx, (from - to) as nat);
    lemma_first_child_bounds(idx, from as nat, (from - to) as nat);
    if to == from {
        assert(t =~= fs_remove(fs, from, idx));
        lemma_remove_core(fs, from, idx);
        lemma_count_remove(fs, from, idx);
        lemma_remove_pages(fs, from, idx);
        assert forall|p: int| 0 <= p && #[trigger] ancestor(p, to as nat) == hole implies page_free(
            fs,
            p,
        ) by {
            assert(fs[(from as nat) as int].contains(ancestor(p, from as nat)));
        }
    } else {
        let u = split_sets(fs, from, idx, to + 1);
        let up = first_child(idx, (from - to - 1) as nat);
        lemma_split(fs, from, idx, to + 1);
        lemma_first_child_step(idx, (from - to - 1) as nat);
        assert(hole == 2 * up);
        let r = hole + 1;
        assert(t =~= fs_insert(u, to, r));
        assert(block_in_use(u, to as nat, r)) by {
            assert forall|p: int| 0 <= p && #[trigger] ancestor(p, to as nat) == r implies !page_free(
                u,
                p,
            ) by {
                lemma_ancestor_step(p, to as nat);
                assert(ancestor(p, (to + 1) as nat) == up);
            }
        }
        lemma_insert_core(u, to, r);
        lemma_count_insert(u, to, r);
        assert(block_pages((to + 1) as nat) == 2 * block_pages(to as nat));
        assert forall|p: int| 0 <= p && #[trigger] ancestor(p, to as nat) == hole implies page_free(
            fs,
            p,
        ) by {
            lemma_ancestor_step(p, to as nat);
            assert(ancestor(p, (to + 1) as nat) == up);
        }
        assert forall|p: int| 0 <= p implies (#[trigger] page_free(t, p) == (page_free(fs, p)
            && ancestor(p, to as nat) != hole)) by {
            lemma_ancestor_step(p, to as nat);
            if ancestor(p, to as nat) == r {
                assert(ancestor(p, (to + 1) as nat) == up);
            }
        }
        // the lower half is not free, so the upper half has no free buddy
        let p0 = first_child(hole, to as nat);
        lemma_first_child_ancestor(hole, to as nat);
        assert(!page_free(t, p0));
        assert(!t[to].contains(hole)) by {
            if t[to].contains(hole) {
                assert(t[(to as nat) as int].contains(ancestor(p0, to as nat)));
            }
        }
        assert forall|o2: int, i2: int|
            0 <= o2 < orders() - 1 && #[trigger] t[o2].contains(i2) implies !t[o2].contains(
            buddy_of(i2),
        ) by {
            if o2 == to {
                if i2 != r {
                    assert(u[o2].contains(i2));
                    assert(!u[o2].contains(buddy_of(i2)));
                }
            } else {
                assert(u[o2].contains(i2));
                assert(!u[o2].contains(buddy_of(i2)));
            }
        }
    }
}

/// The free sets after block `i` of order `o` has been released: while its
/// buddy is free the two are joined into their parent, and what is left at
/// the end is put in.
pub open spec fn coalesce(fs: FreeSets, o: int, i: int) -> FreeSets
    decreases orders() - o,
{
    if 0 <= o < orders() - 1 && fs[o].contains(buddy_of(i)) {
        coalesce(fs_remove(fs, o, buddy_of(i)), o + 1, i / 2)
    } else {
        fs_insert(fs, o, i)
    }
}

/// Releasing a block that is in use keeps the free sets consistent, frees
/// exactly its pages, and leaves a free block of its order or above.
pub proof fn lemma_coalesce(fs: FreeSets, o: int, i: int)
    requires
        fs_core(fs),
        fs_coalesced(fs),
        0 <= o < orders(),
        0 <= i < order_capacity(o as nat),
        block_in_use(fs, o as nat, i),
    ensures
        fs_core(coalesce(fs, o, i)),
        fs_coalesced(coalesce(fs, o, i)),
        fs_count(coalesce(fs, o, i), orders() as nat) == fs_count(fs, orders() as nat)
            + block_pages(o as nat),
        forall|p: int|
            0 <= p ==> (#[trigger] page_free(coalesce(fs, o, i), p) == (page_free(fs, p)
                || ancestor(p, o as nat) == i)),
        first_order_with_free(coalesce(fs, o, i), o) < orders(),
        o < orders() - 1 && fs[o].contains(buddy_of(i)) ==> first_order_with_free(
            coalesce(fs, o, i),
            o + 1,
        ) < orders(),
    decreases orders() - o,
{
    let b = buddy_of(i);
    let res = coalesce(fs, o, i);
    if 0 <= o < orders() - 1 && fs[o].contains(b) {
        let f1 = fs_remove(fs, o, b);
        let j = i / 2;
        lemma_remove_core(fs, o, b);
        lemma_count_remove(fs, o, b);
        lemma_remove_pages(fs, o, b);
        assert(order_capacity(o as nat) == 2 * order_capacity((o + 1) as nat));
        assert(block_in_use(f1, (o + 1) as nat, j)) by {
            assert forall|p: int| 0 <= p && #[trigger] ancestor(p, (o + 1) as nat) == j implies !page_free(
                f1,
                p,
            ) by {
                lemma_ancestor_step(p, o as nat);
                let a = ancestor(p, o as nat);
                assert(a == i || a == b);
                if a == i {
                    assert(!page_free(fs, p));
                }
            }
        }
        lemma_coalesce(f1, o + 1, j);
        assert(block_pages((o + 1) as nat) == 2 * block_pages(o as nat));
        assert forall|p: int| 0 <= p implies (#[trigger] page_free(res, p) == (page_free(fs, p)
            || ancestor(p, o as nat) == i)) by {
            lemma_ancestor_step(p, o as nat);
            let a = ancestor(p, o as nat);
            if a == b {
                assert(fs[(o as nat) as int].contains(ancestor(p, o as nat)));
                assert(page_free(fs, p));
            }
            assert((ancestor(p, (o + 1) as nat) == j) == (a == i || a == b));
        }
        lemma_first_order_from_above(res, o);
    } else {
        lemma_insert_core(fs, o, i);
        lemma_count_insert(fs, o, i);
        assert forall|o2: int, i2: int|
            0 <= o2 < orders() - 1 && #[trigger] res[o2].contains(i2) implies !res[o2].contains(
            buddy_of(i2),
        ) by {
            if o2 == o {
                if i2 == i {
                } else {
                    assert(fs[o2].contains(i2));
                    assert(!fs[o2].contains(buddy_of(i2)));
                }
            } else {
                assert(fs[o2].contains(i2));
                assert(!fs[o2].contains(buddy_of(i2)));
            }
        }
        assert(res[o].contains(i));
        assert(has_free(res, o));
    }
}

/// A free block at order `at` bounds the search that starts at or below it.
pub proof fn lemma_first_order_found(fs: FreeSets, start: int, at: int, i: int)
    requires
        0 <= start <= at < orders(),
        fs[at].contains(i),
    ensures
        start <= first_order_with_free(fs, start) <= at,
    decreases at - start,
{
    if start < at && !has_free(fs, start) {
        lemma_first_order_found(fs, start + 1, at, i);
    }
}

/// A search from one order up that succeeds makes the search from the order
/// itself succeed.
pub proof fn lemma_first_order_from_above(fs: FreeSets, o: int)
    requires
        0 <= o,
        first_order_with_free(fs, o + 1) < orders(),
    ensures
        first_order_with_free(fs, o) < orders(),
{
}

/// The search stops at the first order that has a free block.
pub proof fn lemma_first_order_is(fs: FreeSets, start: int, at: int)
    requires
        0 <= start <= at < orders(),
        forall|o: int| start <= o < at ==> !has_free(fs, o),
        has_free(fs, at),
    ensures
        first_order_with_free(fs, start) == at,
    decreases at - start,
{
    if start < at {
        lemma_first_order_is(fs, start + 1, at);
    }
}

/// The search fails where no order has a free block.
pub proof fn lemma_first_order_none(fs: FreeSets, start: int)
    requires
        0 <= start,
        forall|o: int| start <= o < orders() ==> !has_free(fs, o),
    ensures
        first_order_with_free(fs, start) == orders(),
    decreases orders() - start,
{
    if start < orders() {
        lemma_first_order_none(fs, start + 1);
    }
}

/// Going up `k` orders divides the index by `2^k`.
pub proof fn lemma_ancestor_is_quotient(p: int, k: nat)
    requires
        0 <= p,
    ensures
        ancestor(p, k) == p / (block_pages(k) as int),
    decreases k,
{
    if k > 0 {
        lemma_ancestor_is_quotient(p, (k - 1) as nat);
        lemma_ancestor_step(p, (k - 1) as nat);
        lemma_block_pages_positive((k - 1) as nat);
        let b = block_pages((k - 1) as nat) as int;
        vstd::arithmetic::div_mod::lemma_div_denominator(p, b, 2);
        assert(b * 2 == block_pages(k));
    } else {
        assert(block_pages(0) == 1);
    }
}

/// What the search returns has a free block, and no order before it has.
pub proof fn lemma_first_order_props(fs: FreeSets, start: int)
    requires
        0 <= start,
    ensures
        start <= first_order_with_free(fs, start) <= orders() || start > orders(),
        first_order_with_free(fs, start) < orders() ==> has_free(
            fs,
            first_order_with_free(fs, start),
        ),
        forall|o: int| start <= o < first_order_with_free(fs, start) ==> !has_free(fs, o),
    decreases orders() - start,
{
    if start < orders() && !has_free(fs, start) {
        lemma_first_order_props(fs, start + 1);
    }
}

/// `addr` rounded up to a page boundary.
pub open spec fn page_align_up(addr: int) -> int {
    ((addr + 4095) / 4096) * 4096
}

/// `addr` rounded down to a page boundary.
pub open spec fn page_align_down(addr: int) -> int {
    (addr / 4096) * 4096
}

/// The allocator's holdings page by page: which pages are free, whatever
/// the blocks are that hold them.
pub struct Ledger {
    /// Physical address of page 0.
    pub mem_start: int,
    /// Pages ever handed to the allocator.
    pub total_pages: nat,
    /// Pages that are free now.
    pub free_pages: nat,
    /// The free pages, by page number.
    pub free: Set<int>,
}

impl Ledger {
    /// The ledger of an allocator that has been given nothing.
    pub open spec fn empty() -> Ledger {
        Ledger { mem_start: 0, total_pages: 0, free_pages: 0, free: Set::empty() }
    }

    /// Whether the region `[start, start + size)` can be added: cut down to
    /// whole pages it is not empty, begins at or above 1 MiB and not below
    /// page 0, ends within the `2^20` pages that can be tracked, fits in
    /// the total, and none of its pages is free already.
    pub open spec fn accepts(self, start: int, size: int) -> bool {
        let lo = page_align_up(start);
        let hi = page_align_down(start + size);
        let base = self.mem_start;
        &&& self.fits(start, size)
        &&& forall|p: int| (lo - base) / 4096 <= p < (hi - base) / 4096 ==> !self.free.contains(p)
    }

    /// Whether the region `[start, start + size)` has a place: all of
    /// `accepts` but that its pages are not free already.
    pub open spec fn fits(self, start: int, size: int) -> bool {
        let lo = page_align_up(start);
        let hi = page_align_down(start + size);
        let base = self.mem_start;
        &&& 0 <= start
        &&& 0 <= size
        &&& start + size <= u64::MAX
        &&& start + 4095 <= u64::MAX
        &&& lo >= 0x100000
        &&& lo < hi
        &&& base <= lo
        &&& hi - base <= 0x1_0000_0000
        &&& self.total_pages + (hi - lo) / 4096 <= 1048576
    }

    /// The ledger with the pages of `[start, start + size)` added as free
    /// pages; unchanged where the region cannot be added.
    pub open spec fn add_region(self, start: int, size: int) -> Ledger {
        if self.accepts(start, size) {
            let lo = page_align_up(start);
            let hi = page_align_down(start + size);
            let base = self.mem_start;
            Ledger {
                mem_start: base,
                total_pages: (self.total_pages + (hi - lo) / 4096) as nat,
                free_pages: (self.free_pages + (hi - lo) / 4096) as nat,
                free: self.free + vstd::set_lib::set_int_range(
                    (lo - base) / 4096,
                    (hi - base) / 4096,
                ),
            }
        } else {
            self
        }
    }

    /// The ledger after each of `regions`, a base and a length each, has
    /// been added in turn.
    pub open spec fn add_regions(self, regions: Seq<(u64, u64)>) -> Ledger
        decreases regions.len(),
    {
        if regions.len() == 0 {
            self
        } else {
            self.add_regions(regions.drop_last()).add_region(
                regions.last().0 as int,
                regions.last().1 as int,
            )
        }
    }
}

/// Joining two free buddies into their parent keeps the free sets
/// consistent and changes neither the count nor which pages are free.
pub proof fn lemma_merge_pair(fs: FreeSets, o: int, j: int)
    requires
        fs_core(fs),
        0 <= o < orders() - 1,
        fs[o].contains(2 * j),
        fs[o].contains(2 * j + 1),
    ensures
        fs_core(fs_insert(fs_remove(fs_remove(fs, o, 2 * j), o, 2 * j + 1), o + 1, j)),
        fs_count(
            fs_insert(fs_remove(fs_remove(fs, o, 2 * j), o, 2 * j + 1), o + 1, j),
            orders() as nat,
        ) == fs_count(fs, orders() as nat),
        forall|p: int|
            0 <= p ==> (#[trigger] page_free(
                fs_insert(fs_remove(fs_remove(fs, o, 2 * j), o, 2 * j + 1), o + 1, j),
                p,
            ) == page_free(fs, p)),
{
    let f1 = fs_remove(fs, o, 2 * j);
    let f2 = fs_remove(f1, o, 2 * j + 1);
    let r = fs_insert(f2, o + 1, j);
    lemma_remove_core(fs, o, 2 * j);
    lemma_count_remove(fs, o, 2 * j);
    lemma_remove_pages(fs, o, 2 * j);
    lemma_remove_core(f1, o, 2 * j + 1);
    lemma_count_remove(f1, o, 2 * j + 1);
    lemma_remove_pages(f1, o, 2 * j + 1);
    assert(order_capacity(o as nat) == 2 * order_capacity((o + 1) as nat));
    assert(block_in_use(f2, (o + 1) as nat, j)) by {
        assert forall|p: int| 0 <= p && #[trigger] ancestor(p, (o + 1) as nat) == j implies !page_free(
            f2,
            p,
        ) by {
            lemma_ancestor_step(p, o as nat);
        }
    }
    lemma_insert_core(f2, o + 1, j);
    lemma_count_insert(f2, o + 1, j);
    assert(block_pages((o + 1) as nat) == 2 * block_pages(o as nat));
    assert forall|p: int| 0 <= p implies (#[trigger] page_free(r, p) == page_free(fs, p)) by {
        lemma_ancestor_step(p, o as nat);
        let a = ancestor(p, o as nat);
        if a == 2 * j || a == 2 * j + 1 {
            assert(fs[(o as nat) as int].contains(ancestor(p, o as nat)));
            assert(page_free(fs, p));
        }
    }
}

/// The allocator's state as mathematics.
pub struct BuddyState {
    /// Physical address of page 0.
    pub mem_start: int,
    /// Pages ever handed to the allocator.
    pub total_pages: nat,
    /// Pages that are free now.
    pub free_pages: nat,
    /// The free blocks, one set of block indices per order.
    pub free: FreeSets,
}

impl BuddyState {
    /// The state is consistent: the free sets are, buddies are joined, the
    /// count of free pages is the sum over the free blocks, and the first
    /// page is aligned and leaves room for `2^20` pages below `2^64`.
    pub open spec fn wf(self) -> bool {
        &&& fs_core(self.free)
        &&& fs_coalesced(self.free)
        &&& self.free_pages == fs_count(self.free, orders() as nat)
        &&& self.total_pages <= 1048576
        &&& 0 <= self.mem_start
        &&& self.mem_start % 0x40_0000 == 0
        &&& self.mem_start + 0x1_0000_0000 <= 0x1_0000_0000_0000_0000
    }

    /// Physical address of block `idx` of order `order`.
    pub open spec fn block_addr(self, order: nat, idx: int) -> int {
        self.mem_start + idx * block_pages(order) * 4096
    }

    /// Page number of the frame that holds `addr`.
    pub open spec fn page_of(self, addr: int) -> int {
        (addr - self.mem_start) / 4096
    }

    /// Index of the block of order `order` that holds `addr`.
    pub open spec fn block_index(self, addr: int, order: nat) -> int {
        ancestor(self.page_of(addr), order)
    }

    /// Whether the frame that holds `addr` is free.
    pub open spec fn frame_is_free(self, addr: int) -> bool {
        addr >= self.mem_start && page_free(self.free, self.page_of(addr))
    }

    /// Whether `addr` is the base of a block of order `order` that the
    /// allocator can track and none of whose pages is free.
    pub open spec fn can_release(self, addr: int, order: int) -> bool {
        &&& 0 <= order < orders()
        &&& addr >= self.mem_start
        &&& (addr - self.mem_start) % block_bytes(order as nat) == 0
        &&& self.block_index(addr, order as nat) < order_capacity(order as nat)
        &&& block_in_use(self.free, order as nat, self.block_index(addr, order as nat))
    }

    /// Allocation of `2^order` pages: the lowest free block of the lowest
    /// order from `order` up that has one is taken and split down; its lowest
    /// part is handed out, the upper halves stay free. `None` if no such
    /// order has a free block.
    pub open spec fn allocate(self, order: int) -> Option<(int, BuddyState)> {
        let from = first_order_with_free(self.free, order);
        if from >= orders() {
            None
        } else {
            let idx = lowest(self.free[from]);
            let got = first_child(idx, (from - order) as nat);
            Some(
                (
                    self.block_addr(order as nat, got),
                    BuddyState {
                        free_pages: (self.free_pages - block_pages(order as nat)) as nat,
                        free: split_sets(self.free, from, idx, order),
                        ..self
                    },
                ),
            )
        }
    }

    /// Release of the block of order `order` at `addr`.
    pub open spec fn release(self, addr: int, order: int) -> BuddyState {
        BuddyState {
            free_pages: self.free_pages + block_pages(order as nat),
            free: coalesce(self.free, order, self.block_index(addr, order as nat)),
            ..self
        }
    }

    /// What the allocator holds, page by page.
    pub open spec fn ledger(self) -> Ledger {
        Ledger {
            mem_start: self.mem_start,
            total_pages: self.total_pages,
            free_pages: self.free_pages,
            free: free_page_set(self.free),
        }
    }

    /// The state after `n` single pages have been allocated one after the
    /// other.
    pub open spec fn take_pages(self, n: nat) -> BuddyState
        decreases n,
    {
        if n == 0 {
            self
        } else {
            match self.allocate(0) {
                Some((_, rest)) => rest.take_pages((n - 1) as nat),
                None => self,
            }
        }
    }

    /// Allocating and at once releasing again, once for each order in
    /// `rounds`; a round whose allocation fails changes nothing.
    pub open spec fn alloc_release_rounds(self, rounds: Seq<int>) -> BuddyState
        decreases rounds.len(),
    {
        if rounds.len() == 0 {
            self
        } else {
            let before = self.alloc_release_rounds(rounds.drop_last());
            match before.allocate(rounds.last()) {
                Some((addr, taken)) => taken.release(addr, rounds.last()),
                None => before,
            }
        }
    }
}

/// The page and block numbers of a block's address are what they were
/// computed from.
pub proof fn lemma_block_addr_index(s: BuddyState, order: nat, idx: int)
    requires
        0 <= idx,
        s.mem_start % 4096 == 0,
    ensures
        s.page_of(s.block_addr(order, idx)) == first_child(idx, order),
        s.block_index(s.block_addr(order, idx), order) == idx,
        (s.block_addr(order, idx) - s.mem_start) % block_bytes(order) == 0,
        s.block_addr(order, idx) >= s.mem_start,
{
    let b = block_pages(order) as int;
    lemma_first_child_is_product(idx, order);
    lemma_first_child_ancestor(idx, order);
    lemma_block_pages_positive(order);
    assert(idx * b * 4096 == (idx * b) * 4096);
    assert(idx * b * 4096 == idx * (4096 * b)) by (nonlinear_arith);
    assert(0 <= idx * b) by (nonlinear_arith)
        requires
            0 <= idx,
            0 <= b,
    ;
    vstd::arithmetic::div_mod::lemma_mod_multiples_basic(idx, 4096 * b);
}

/// What an allocation that succeeds leaves behind: a consistent state with
/// `2^order` pages fewer, in which the pages handed out, free before, are
/// in use and every other page is as it was.
pub proof fn lemma_alloc(s: BuddyState, order: int)
    requires
        s.wf(),
        0 <= order < orders(),
        s.allocate(order).is_some(),
    ensures
        s.allocate(order).unwrap().1.wf(),
        s.free_pages >= block_pages(order as nat),
        s.allocate(order).unwrap().1.free_pages + block_pages(order as nat) == s.free_pages,
        s.allocate(order).unwrap().1.can_release(s.allocate(order).unwrap().0, order),
        s.mem_start <= s.allocate(order).unwrap().0,
        s.allocate(order).unwrap().0 + block_bytes(order as nat) <= s.mem_start + 0x1_0000_0000,
        forall|p: int|
            0 <= p ==> (#[trigger] page_free(s.allocate(order).unwrap().1.free, p) == (page_free(
                s.free,
                p,
            ) && ancestor(p, order as nat) != s.block_index(
                s.allocate(order).unwrap().0,
                order as nat,
            ))),
        forall|p: int|
            0 <= p && #[trigger] ancestor(p, order as nat) == s.block_index(
                s.allocate(order).unwrap().0,
                order as nat,
            ) ==> page_free(s.free, p),
{
    let from = first_order_with_free(s.free, order);
    lemma_first_order_props(s.free, order);
    let w = choose|i: int| #[trigger] s.free[from].contains(i);
    lemma_lowest_exists(s.free[from], w);
    let idx = lowest(s.free[from]);
    lemma_split(s.free, from, idx, order);
    let got = first_child(idx, (from - order) as nat);
    lemma_block_addr_index(s, order as nat, got);
    let s1 = s.allocate(order).unwrap().1;
    lemma_block_addr_index(s1, order as nat, got);
    lemma_count_at_least(s.free, from, idx, orders() as nat);
    lemma_block_pages_monotone(order as nat, from as nat);
    lemma_capacity_times_pages(order as nat);
    let b = block_pages(order as nat) as int;
    let cap = order_capacity(order as nat);
    assert((got + 1) * b <= cap * b) by (nonlinear_arith)
        requires
            got + 1 <= cap,
            b >= 0,
    ;
    assert(got * b * 4096 + 4096 * b == (got + 1) * b * 4096) by (nonlinear_arith);
    assert(0 <= got * b) by (nonlinear_arith)
        requires
            0 <= got,
            0 <= b,
    ;
}

/// A block of a higher order has no fewer pages.
pub proof fn lemma_block_pages_monotone(a: nat, b: nat)
    requires
        a <= b,
    ensures
        block_pages(a) <= block_pages(b),
    decreases b,
{
    if a < b {
        lemma_block_pages_monotone(a, (b - 1) as nat);
    }
}

/// What a release leaves behind: a consistent state with `2^order` pages
/// more, in which the block's pages are free and every other page is as it
/// was.
pub proof fn lemma_release(s: BuddyState, addr: int, order: int)
    requires
        s.wf(),
        s.can_release(addr, order),
    ensures
        s.release(addr, order).wf(),
        s.release(addr, order).free_pages == s.free_pages + block_pages(order as nat),
        forall|p: int|
            0 <= p ==> (#[trigger] page_free(s.release(addr, order).free, p) == (page_free(
                s.free,
                p,
            ) || ancestor(p, order as nat) == s.block_index(addr, order as nat))),
        s.release(addr, order).allocate(order).is_some(),
{
    let idx = s.block_index(addr, order as nat);
    lemma_ancestor_monotone(0, s.page_of(addr), order as nat);
    lemma_coalesce(s.free, order, idx);
}

/// Page 0 lies at a multiple of the largest block, so at a multiple of
/// every block's size.
pub proof fn lemma_base_aligned(base: int, order: nat)
    requires
        base % 0x40_0000 == 0,
        order <= 10,
    ensures
        base % block_bytes(order) == 0,
        base % 4096 == 0,
        0x40_0000int % block_bytes(order) == 0,
{
    lemma_block_pages_values();
    if order == 0 {
        assert(block_bytes(order) == 4096);
        assert(0x40_0000int % 4096 == 0);
        assert(base % 4096 == 0);
    } else if order == 1 {
        assert(block_bytes(order) == 8192);
        assert(0x40_0000int % 8192 == 0);
        assert(base % 8192 == 0);
    } else if order == 2 {
        assert(block_bytes(order) == 16384);
        assert(0x40_0000int % 16384 == 0);
        assert(base % 16384 == 0);
    } else if order == 3 {
        assert(block_bytes(order) == 32768);
        assert(0x40_0000int % 32768 == 0);
        assert(base % 32768 == 0);
    } else if order == 4 {
        assert(block_bytes(order) == 65536);
        assert(0x40_0000int % 65536 == 0);
        assert(base % 65536 == 0);
    } else if order == 5 {
        assert(block_bytes(order) == 131072);
        assert(0x40_0000int % 131072 == 0);
        assert(base % 131072 == 0);
    } else if order == 6 {
        assert(block_bytes(order) == 262144);
        assert(0x40_0000int % 262144 == 0);
        assert(base % 262144 == 0);
    } else if order == 7 {
        assert(block_bytes(order) == 524288);
        assert(0x40_0000int % 524288 == 0);
        assert(base % 524288 == 0);
    } else if order == 8 {
        assert(block_bytes(order) == 1048576);
        assert(0x40_0000int % 1048576 == 0);
        assert(base % 1048576 == 0);
    } else if order == 9 {
        assert(block_bytes(order) == 2097152);
        assert(0x40_0000int % 2097152 == 0);
        assert(base % 2097152 == 0);
    } else {
        assert(block_bytes(order) == 4194304);
        assert(0x40_0000int % 4194304 == 0);
        assert(base % 4194304 == 0);
    }
}

/// Every block that `alloc` hands out lies at a multiple of its own size.
pub proof fn lemma_alloc_aligned(s: BuddyState, order: int)
    requires
        s.wf(),
        0 <= order < orders(),
        s.allocate(order).is_some(),
    ensures
        s.allocate(order).unwrap().0 % block_bytes(order as nat) == 0,
{
    lemma_alloc(s, order);
    let a = s.allocate(order).unwrap().0;
    let m = block_bytes(order as nat);
    lemma_block_pages_positive(order as nat);
    lemma_base_aligned(s.mem_start, order as nat);
    vstd::arithmetic::div_mod::lemma_mod_adds(s.mem_start, a - s.mem_start, m);
}

/// A block that is released at the order at which it was allocated leaves
/// the number of free pages where it was before the allocation.
pub proof fn lemma_alloc_release_conserves(s: BuddyState, order: int)
    requires
        s.wf(),
        0 <= order < orders(),
        s.allocate(order).is_some(),
    ensures
        s.allocate(order).unwrap().1.release(s.allocate(order).unwrap().0, order).wf(),
        s.allocate(order).unwrap().1.release(s.allocate(order).unwrap().0, order).free_pages
            == s.free_pages,
{
    lemma_alloc(s, order);
    lemma_release(s.allocate(order).unwrap().1, s.allocate(order).unwrap().0, order);
}

/// However many times a block is allocated and released again at the same
/// order, the number of free pages ends where it began.
pub proof fn lemma_rounds_conserve(s: BuddyState, rounds: Seq<int>)
    requires
        s.wf(),
        forall|i: int| 0 <= i < rounds.len() ==> 0 <= #[trigger] rounds[i] < orders(),
    ensures
        s.alloc_release_rounds(rounds).wf(),
        s.alloc_release_rounds(rounds).free_pages == s.free_pages,
        s.alloc_release_rounds(rounds).total_pages == s.total_pages,
    decreases rounds.len(),
{
    if rounds.len() > 0 {
        lemma_rounds_conserve(s, rounds.drop_last());
        let before = s.alloc_release_rounds(rounds.drop_last());
        if before.allocate(rounds.last()).is_some() {
            lemma_alloc_release_conserves(before, rounds.last());
        }
    }
}

/// Once two buddies of order `order` have both been released, a block of
/// the next order can be allocated.
pub proof fn lemma_buddies_coalesce(s: BuddyState, a: int, b: int, order: int)
    requires
        s.wf(),
        0 <= order < orders() - 1,
        s.can_release(a, order),
        s.release(a, order).can_release(b, order),
        s.block_index(b, order as nat) == buddy_of(s.block_index(a, order as nat)),
    ensures
        s.release(a, order).release(b, order).wf(),
        s.release(a, order).release(b, order).allocate(order + 1).is_some(),
{
    let ia = s.block_index(a, order as nat);
    let ib = s.block_index(b, order as nat);
    let s1 = s.release(a, order);
    lemma_release(s, a, order);
    lemma_release(s1, b, order);
    lemma_ancestor_monotone(0, s.page_of(a), order as nat);
    lemma_ancestor_monotone(0, s.page_of(b), order as nat);
    // the first block cannot have been joined with its buddy, which is in use
    let pb = first_child(ib, order as nat);
    lemma_first_child_ancestor(ib, order as nat);
    assert(!page_free(s1.free, pb));
    assert(!s.free[order].contains(ib)) by {
        if s.free[order].contains(ib) {
            assert(s.free[(order as nat) as int].contains(ancestor(pb, order as nat)));
            assert(page_free(s.free, pb));
        }
    }
    assert(s1.free =~= fs_insert(s.free, order, ia));
    assert(s1.free[order].contains(buddy_of(ib)));
    lemma_coalesce(s1.free, order, ib);
}

/// Allocation succeeds exactly where a page is free.
pub proof fn lemma_alloc_succeeds(s: BuddyState, order: int)
    requires
        s.wf(),
    ensures
        s.allocate(0).is_some() <==> s.free_pages > 0,
        s.allocate(order).is_some() ==> 0 <= order < orders(),
{
    lemma_first_order_props(s.free, 0);
    if s.allocate(0).is_some() {
        let from = first_order_with_free(s.free, 0);
        let i = choose|i: int| #[trigger] s.free[from].contains(i);
        lemma_count_at_least(s.free, from, i, orders() as nat);
        lemma_block_pages_positive(from as nat);
    } else {
        assert forall|o: int, i: int| 0 <= o < orders() implies !(#[trigger] s.free[o].contains(
            i,
        )) by {
            if s.free[o].contains(i) {
                assert(has_free(s.free, o));
            }
        }
        lemma_count_empty(s.free, orders() as nat);
    }
    if order >= 0 {
        lemma_first_order_props(s.free, order);
    }
}

/// The frame that an allocation of one page hands out was free, lies on a
/// page boundary, and is free no longer; no other frame becomes free.
pub proof fn lemma_alloc_page_frame(s: BuddyState)
    requires
        s.wf(),
        s.allocate(0).is_some(),
    ensures
        s.frame_is_free(s.allocate(0).unwrap().0),
        s.allocate(0).unwrap().0 % 4096 == 0,
        s.allocate(0).unwrap().0 == s.mem_start + 4096 * s.page_of(s.allocate(0).unwrap().0),
        0 <= s.page_of(s.allocate(0).unwrap().0),
        !s.allocate(0).unwrap().1.frame_is_free(s.allocate(0).unwrap().0),
        forall|x: int| #[trigger]
            s.allocate(0).unwrap().1.frame_is_free(x) ==> s.frame_is_free(x),
        forall|p: int|
            0 <= p && #[trigger] page_free(s.allocate(0).unwrap().1.free, p) ==> page_free(
                s.free,
                p,
            ),
{
    lemma_alloc(s, 0);
    let a = s.allocate(0).unwrap().0;
    let s1 = s.allocate(0).unwrap().1;
    assert(block_bytes(0) == 4096);
    let p = s.page_of(a);
    assert(ancestor(p, 0) == p);
    assert(s.block_index(a, 0) == p);
    assert(page_free(s.free, p));
    assert(!page_free(s1.free, p));
    assert forall|x: int| #[trigger] s1.frame_is_free(x) implies s.frame_is_free(x) by {
        let q = s1.page_of(x);
        assert(page_free(s1.free, q));
    }
}

/// Taking `n` pages, where that many are free, leaves `n` fewer; the first
/// page and the total stay.
pub proof fn lemma_take_pages(s: BuddyState, n: nat)
    requires
        s.wf(),
    ensures
        s.take_pages(n).wf(),
        s.take_pages(n).mem_start == s.mem_start,
        s.take_pages(n).total_pages == s.total_pages,
        n <= s.free_pages ==> s.take_pages(n).free_pages == s.free_pages - n,
        n >= s.free_pages ==> s.take_pages(n).free_pages == 0,
        forall|p: int|
            0 <= p && #[trigger] page_free(s.take_pages(n).free, p) ==> page_free(s.free, p),
    decreases n,
{
    lemma_alloc_succeeds(s, 0);
    if n > 0 && s.allocate(0).is_some() {
        lemma_alloc(s, 0);
        lemma_alloc_page_frame(s);
        assert(block_pages(0) == 1);
        lemma_take_pages(s.allocate(0).unwrap().1, (n - 1) as nat);
    }
}

/// After one page has been released, the frames that are free are those
/// that were and the one released.
pub proof fn lemma_release_page_frame(s: BuddyState, a: int)
    requires
        s.wf(),
        s.can_release(a, 0),
    ensures
        s.release(a, 0).wf(),
        s.release(a, 0).mem_start == s.mem_start,
        forall|p: int|
            0 <= p ==> (#[trigger] page_free(s.release(a, 0).free, p) == (page_free(s.free, p) || p
                == s.page_of(a))),
        a == s.mem_start + 4096 * s.page_of(a),
        0 <= s.page_of(a),
{
    lemma_release(s, a, 0);
    assert(block_bytes(0) == 4096);
    assert forall|p: int| 0 <= p implies (#[trigger] page_free(s.release(a, 0).free, p) == (
    page_free(s.free, p) || p == s.page_of(a))) by {
        assert(ancestor(p, 0) == p);
        assert(s.block_index(a, 0) == s.page_of(a));
    }
}

/// Taking pages one lot after another is taking them in one lot.
pub proof fn lemma_take_pages_add(s: BuddyState, a: nat, b: nat)
    ensures
        s.take_pages(a).take_pages(b) == s.take_pages(a + b),
    decreases a,
{
    if a > 0 {
        match s.allocate(0) {
            Some((_, rest)) => {
                lemma_take_pages_add(rest, (a - 1) as nat, b);
                assert(s.take_pages(a + b) == rest.take_pages((a + b - 1) as nat));
            },
            None => {
                lemma_take_pages_stuck(s, b);
                lemma_take_pages_stuck(s, a + b);
            },
        }
    }
}

/// With no page free, taking pages changes nothing.
pub proof fn lemma_take_pages_stuck(s: BuddyState, n: nat)
    requires
        s.allocate(0).is_none(),
    ensures
        s.take_pages(n) == s,
    decreases n,
{
}

/// Whether block `i` of order `o` or a block above it that holds it is
/// free.
pub open spec fn covered(fs: FreeSets, o: int, i: int) -> bool {
    exists|k: nat| o + k < orders() && #[trigger] fs[o + k].contains(ancestor(i, k))
}

/// Where buddies are joined, a block all of whose pages are free is free
/// itself or lies in a free block: its pages are not free piece by piece.
pub proof fn lemma_whole_block_free(fs: FreeSets, o: int, i: int)
    requires
        fs_core(fs),
        fs_coalesced(fs),
        0 <= o < orders(),
        0 <= i,
        forall|p: int| 0 <= p && #[trigger] ancestor(p, o as nat) == i ==> page_free(fs, p),
    ensures
        covered(fs, o, i),
    decreases o,
{
    if o == 0 {
        assert(ancestor(i, o as nat) == i);
        assert(page_free(fs, i));
        let k = choose|k: nat| k < orders() && #[trigger] fs[k as int].contains(ancestor(i, k));
        assert(fs[o + k].contains(ancestor(i, k)));
    } else {
        let below = o - 1;
        assert forall|p: int| 0 <= p && #[trigger] ancestor(p, below as nat) == 2 * i implies page_free(
            fs,
            p,
        ) by {
            lemma_ancestor_step(p, below as nat);
        }
        assert forall|p: int| 0 <= p && #[trigger] ancestor(p, below as nat) == 2 * i + 1 implies page_free(
            fs,
            p,
        ) by {
            lemma_ancestor_step(p, below as nat);
        }
        lemma_whole_block_free(fs, below, 2 * i);
        lemma_whole_block_free(fs, below, 2 * i + 1);
        let k1 = choose|k: nat| below + k < orders() && #[trigger] fs[below + k].contains(
            ancestor(2 * i, k),
        );
        let k2 = choose|k: nat| below + k < orders() && #[trigger] fs[below + k].contains(
            ancestor(2 * i + 1, k),
        );
        if k1 > 0 {
            lemma_ancestor_add(2 * i, 1, (k1 - 1) as nat);
            assert(ancestor(2 * i, 1) == ancestor((2 * i) / 2, 0));
            assert(fs[o + (k1 - 1) as nat].contains(ancestor(i, (k1 - 1) as nat)));
        } else if k2 > 0 {
            lemma_ancestor_add(2 * i + 1, 1, (k2 - 1) as nat);
            assert(ancestor(2 * i + 1, 1) == ancestor((2 * i + 1) / 2, 0));
            assert(fs[o + (k2 - 1) as nat].contains(ancestor(i, (k2 - 1) as nat)));
        } else {
            assert(ancestor(2 * i, 0) == 2 * i);
            assert(ancestor(2 * i + 1, 0) == 2 * i + 1);
            assert(fs[below].contains(2 * i));
            assert(buddy_of(2 * i) == 2 * i + 1);
            assert(false);
        }
    }
}

/// Every block that is free in one consistent state with joined buddies is
/// free in any other such state in which the same pages are free.
pub proof fn lemma_same_pages_same_block(a: FreeSets, b: FreeSets, o: int, i: int)
    requires
        fs_core(a),
        fs_coalesced(a),
        fs_core(b),
        fs_coalesced(b),
        forall|p: int| 0 <= p ==> #[trigger] page_free(a, p) == page_free(b, p),
        0 <= o < orders(),
        a[o].contains(i),
    ensures
        b[o].contains(i),
{
    assert forall|p: int| 0 <= p && #[trigger] ancestor(p, o as nat) == i implies page_free(b, p) by {
        assert(a[(o as nat) as int].contains(ancestor(p, o as nat)));
        assert(page_free(a, p));
    }
    lemma_whole_block_free(b, o, i);
    let k = choose|k: nat| o + k < orders() && #[trigger] b[o + k].contains(ancestor(i, k));
    if k > 0 {
        // a block above is free in `b`; all its pages are free in `a`, where
        // the block itself is free: one of the two is not consistent
        let up = ancestor(i, k);
        lemma_ancestor_monotone(0, i, k);
        assert forall|p: int| 0 <= p && #[trigger] ancestor(p, (o + k) as nat) == up implies page_free(
            a,
            p,
        ) by {
            assert(b[((o + k) as nat) as int].contains(ancestor(p, (o + k) as nat)));
            assert(page_free(b, p));
        }
        // in `a` the buddy of the block has all its pages free
        let bud = buddy_of(i);
        assert forall|p: int| 0 <= p && #[trigger] ancestor(p, o as nat) == bud implies page_free(
            a,
            p,
        ) by {
            lemma_ancestor_add(p, o as nat, k);
            lemma_ancestor_step(bud, 0);
            lemma_ancestor_step(i, 0);
            assert(ancestor(bud, 1) == ancestor(i, 1));
            lemma_ancestor_add(bud, 1, (k - 1) as nat);
            lemma_ancestor_add(i, 1, (k - 1) as nat);
        }
        assert(0 <= bud);
        lemma_whole_block_free(a, o, bud);
        let j = choose|j: nat| o + j < orders() && #[trigger] a[o + j].contains(ancestor(bud, j));
        if j == 0 {
            assert(ancestor(bud, 0) == bud);
            assert(a[o].contains(bud));
        } else {
            lemma_ancestor_step(bud, 0);
            lemma_ancestor_step(i, 0);
            lemma_ancestor_add(bud, 1, (j - 1) as nat);
            lemma_ancestor_add(i, 1, (j - 1) as nat);
            assert(ancestor(bud, j) == ancestor(i, j));
            assert(!a[o + j].contains(ancestor(i, j)));
        }
        assert(false);
    }
    assert(ancestor(i, 0) == i);
}

/// The pages that are free say which blocks are free: two consistent
/// states with joined buddies in which the same pages are free are the
/// same.
pub proof fn lemma_pages_fix_blocks(a: FreeSets, b: FreeSets)
    requires
        fs_core(a),
        fs_coalesced(a),
        fs_core(b),
        fs_coalesced(b),
        forall|p: int| 0 <= p ==> #[trigger] page_free(a, p) == page_free(b, p),
    ensures
        a == b,
{
    assert forall|o: int| 0 <= o < orders() implies #[trigger] a[o] =~= b[o] by {
        assert forall|i: int| a[o].contains(i) == b[o].contains(i) by {
            if a[o].contains(i) {
                lemma_same_pages_same_block(a, b, o, i);
            }
            if b[o].contains(i) {
                lemma_same_pages_same_block(b, a, o, i);
            }
        }
    }
    assert(a =~= b);
}

} // verus!
