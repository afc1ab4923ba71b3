//! The buddy heap allocator: one free list per order over a heap whose size
//! is a power of two; blocks are split on allocation and joined with their
//! buddies on release.
use vstd::prelude::*;
use crate::free_list::{
    FreeList,
    HEADER_SIZE,
    lemma_push_contains,
    lemma_push_no_duplicates,
    lemma_remove_contains,
};
use crate::math::{
    pow2,
    is_power_of_two,
    is_next_pow2,
    is_pow2,
    next_pow2,
    log2,
    lemma_pow2_adds,
    lemma_pow2_mono,
    lemma_pow2_pos,
    lemma_pow2_strict,
    lemma_usize_half,
    lemma_next_pow2_unique,
    usize_half_exp,
};
use crate::tiling::{
    block_size,
    block_ok,
    covers,
    covered,
    tiles,
    buddy_of,
    no_free_buddies,
    lemma_buddy_symmetric,
    lemma_halves_aligned,
    lemma_tiling_without_buddies,
    lemma_block_size_double,
    lemma_block_size_mono,
    lemma_parent_aligned,
    lemma_split,
    lemma_merge,
};

verus! {

/// The size of a page: the heap's start is aligned on it, and no request may
/// ask for a coarser alignment.
pub const PAGE_SIZE: usize = 4096;

/// Why a request cannot be served.
#[derive(Clone, Copy, Debug, PartialEq, Eq, Structural)]
pub enum AllocError {
    /// The alignment is not a power of two, or exceeds a page.
    InvalidRequest,
    /// No free block is large enough.
    OutOfMemory,
}

/// The blocks held by a sequence of free lists, list `o` holding blocks of
/// order `o`.
pub open spec fn free_blocks(ls: Seq<Seq<usize>>) -> Set<(int, nat)> {
    Set::new(
        |b: (int, nat)| b.1 < ls.len() && 0 <= b.0 <= usize::MAX && ls[b.1 as int].contains(
            b.0 as usize,
        ),
    )
}

/// An alignment that a request may ask for.
pub open spec fn valid_align(align: int) -> bool {
    is_power_of_two(align) && align <= PAGE_SIZE
}

/// The free set that results from releasing the block at `a` of order `o`:
/// while its buddy is free and the top order is not reached, the two are
/// joined; the block that results is added.
pub open spec fn coalesced(
    free: Set<(int, nat)>,
    a: int,
    o: nat,
    start: int,
    min: int,
    n: nat,
) -> Set<(int, nat)>
    decreases n - o,
{
    let bud = buddy_of(a, o, start, min);
    if o + 1 < n && free.contains((bud, o)) {
        coalesced(free.remove((bud, o)), if a < bud { a } else { bud }, o + 1, start, min, n)
    } else {
        free.insert((a, o))
    }
}

proof fn lemma_free_blocks_push(ls: Seq<Seq<usize>>, j: int, x: usize)
    requires
        0 <= j < ls.len(),
    ensures
        free_blocks(ls.update(j, ls[j].push(x))) == free_blocks(ls).insert((x as int, j as nat)),
{
    let l2 = ls.update(j, ls[j].push(x));
    assert forall|b: (int, nat)|
        free_blocks(l2).contains(b) == free_blocks(ls).insert((x as int, j as nat)).contains(b) by {
        if b.1 == j && 0 <= b.0 <= usize::MAX {
            lemma_push_contains(ls[j], x, b.0 as usize);
        }
    }
    assert(free_blocks(l2) =~= free_blocks(ls).insert((x as int, j as nat)));
}

proof fn lemma_free_blocks_remove(ls: Seq<Seq<usize>>, j: int, i: int)
    requires
        0 <= j < ls.len(),
        0 <= i < ls[j].len(),
        ls[j].no_duplicates(),
    ensures
        free_blocks(ls.update(j, ls[j].remove(i))) == free_blocks(ls).remove(
            (ls[j][i] as int, j as nat),
        ),
        ls[j].remove(i).no_duplicates(),
{
    let l2 = ls.update(j, ls[j].remove(i));
    let x = ls[j][i];
    lemma_remove_contains(ls[j], i, x);
    assert forall|b: (int, nat)|
        free_blocks(l2).contains(b) == free_blocks(ls).remove((x as int, j as nat)).contains(b) by {
        if b.1 == j && 0 <= b.0 <= usize::MAX {
            lemma_remove_contains(ls[j], i, b.0 as usize);
        }
    }
    assert(free_blocks(l2) =~= free_blocks(ls).remove((x as int, j as nat)));
}

/// The free lists while a block of order `j` taken from `ls` at `a` is split
/// down to order `cur`: list `j` has lost its head and each order from `cur`
/// up to `j` holds the upper half split off there.
pub open spec fn split_lists(
    ls: Seq<Seq<usize>>,
    j: int,
    cur: int,
    a: int,
    min: int,
) -> Seq<Seq<usize>> {
    Seq::new(
        ls.len(),
        |o: int|
            if o == j {
                ls[j].drop_last()
            } else if cur <= o < j {
                seq![(a + block_size(min, o as nat)) as usize]
            } else {
                ls[o]
            },
    )
}

/// A buddy allocator over the heap `[start_addr, start_addr + heap_size)`.
pub struct BuddyHeapAllocator {
    start_addr: usize,
    free_lists: Vec<FreeList>,
    heap_size: usize,
    min_block_size: usize,
    live: Ghost<Set<(int, nat)>>,
}

impl BuddyHeapAllocator {
    /// Address of the heap's first byte.
    pub closed spec fn start(&self) -> int {
        self.start_addr as int
    }

    /// Bytes in the heap.
    pub closed spec fn heap(&self) -> int {
        self.heap_size as int
    }

    /// Bytes in a block of order 0.
    pub closed spec fn min(&self) -> int {
        self.min_block_size as int
    }

    /// The free lists, list `o` holding the addresses of the free blocks of
    /// order `o` from the oldest to the head.
    pub closed spec fn lists(&self) -> Seq<Seq<usize>> {
        Seq::new(self.free_lists@.len(), |o: int| self.free_lists@[o]@)
    }

    /// The blocks handed out and not yet released, as (address, order).
    pub closed spec fn live(&self) -> Set<(int, nat)> {
        self.live@
    }

    /// Number of orders.
    pub open spec fn orders(&self) -> nat {
        self.lists().len()
    }

    /// The free blocks, as (address, order).
    pub open spec fn free_set(&self) -> Set<(int, nat)> {
        free_blocks(self.lists())
    }

    /// Bytes in a block of order `o`.
    pub open spec fn size_of_order(&self, o: nat) -> int {
        block_size(self.min(), o)
    }

    /// The heap's shape: page-aligned non-null start, power-of-two sizes, a
    /// top order spanning the whole heap, and room for a header in the
    /// smallest block.
    pub open spec fn geometry_ok(&self) -> bool {
        &&& self.orders() >= 1
        &&& self.min() >= HEADER_SIZE
        &&& is_power_of_two(self.min())
        &&& is_power_of_two(self.heap())
        &&& self.heap() == self.size_of_order((self.orders() - 1) as nat)
        &&& self.start() > 0
        &&& self.start() % PAGE_SIZE as int == 0
        &&& self.start() + self.heap() <= usize::MAX
    }

    /// `other` has the same heap and the same number of orders.
    pub open spec fn same_geometry(&self, other: &Self) -> bool {
        &&& self.start() == other.start()
        &&& self.heap() == other.heap()
        &&& self.min() == other.min()
        &&& self.orders() == other.orders()
    }

    /// The free blocks together with the live ones.
    pub open spec fn blocks(&self) -> Set<(int, nat)> {
        self.free_set().union(self.live())
    }

    /// `s` tiles this allocator's heap.
    pub open spec fn tiles_heap(&self, s: Set<(int, nat)>) -> bool {
        tiles(s, self.start(), self.heap(), self.min(), self.orders())
    }

    /// No list holds a block twice, and no block is both free and live.
    pub open spec fn lists_ok(&self) -> bool {
        &&& forall|o: int| 0 <= o < self.orders() ==> #[trigger] self.lists()[o].no_duplicates()
        &&& self.free_set().disjoint(self.live())
    }

    /// No free block below the top order has its buddy free too.
    pub open spec fn buddies_joined(&self) -> bool {
        no_free_buddies(self.free_set(), self.start(), self.min(), self.orders())
    }

    /// The allocator's invariant: free and live blocks together tile the
    /// heap, and free buddies are always joined.
    pub open spec fn wf(&self) -> bool {
        &&& self.geometry_ok()
        &&& self.lists_ok()
        &&& self.tiles_heap(self.blocks())
        &&& self.buddies_joined()
    }

    /// The size that a request is rounded up from: the largest of the size,
    /// the smallest block and the alignment.
    pub open spec fn needed(&self, size: int, align: int) -> int {
        let m = if size > self.min() {
            size
        } else {
            self.min()
        };
        if align > m {
            align
        } else {
            m
        }
    }

    /// The request can be served by a block of order `k`: its size is the
    /// least power of two that holds what the request needs.
    pub open spec fn order_for(&self, size: int, align: int, k: nat) -> bool {
        &&& valid_align(align)
        &&& self.needed(size, align) <= self.heap()
        &&& is_next_pow2(self.needed(size, align), self.size_of_order(k))
    }

    /// What `allocate` does for a request served by order `k`, taking the
    /// allocator from `self` to `after` and returning `r`: with every list
    /// from order `k` up empty it fails with `OutOfMemory`; otherwise it pops
    /// the head `a` of the first non-empty list `j` at or above `k`, leaves
    /// the upper half of each split in the lists of orders `k` to `j - 1`,
    /// and hands out `a` at order `k`.
    pub open spec fn served(&self, k: nat, r: Result<usize, AllocError>, after: &Self) -> bool {
        if forall|o: int| k <= o < self.orders() ==> #[trigger] self.lists()[o].len() == 0 {
            r == Err::<usize, AllocError>(AllocError::OutOfMemory) && after.lists() == self.lists()
                && after.live() == self.live()
        } else {
            exists|j: int|
                k <= j < self.orders() && #[trigger] self.lists()[j].len() > 0 && (forall|o: int|
                    k <= o < j ==> #[trigger] self.lists()[o].len() == 0) && r == Ok::<
                    usize,
                    AllocError,
                >(self.lists()[j].last()) && after.live() == self.live().insert(
                    (self.lists()[j].last() as int, k),
                ) && after.lists() == split_lists(
                    self.lists(),
                    j,
                    k as int,
                    self.lists()[j].last() as int,
                    self.min(),
                )
        }
    }

    /// Sets up a heap of `heap_size` bytes at `start_addr`, with one order for
    /// each of the given (empty) free lists; the smallest block is
    /// `heap_size >> (free_lists.len() - 1)` bytes. The whole heap starts as
    /// one free block of the top order.
    pub fn new(start_addr: usize, free_lists: Vec<FreeList>, heap_size: usize) -> (r: Self)
        requires
            start_addr != 0,
            free_lists@.len() > 0,
            start_addr as int % PAGE_SIZE as int == 0,
            is_power_of_two(heap_size as int),
            heap_size as int >= HEADER_SIZE * pow2((free_lists@.len() - 1) as nat),
            start_addr + heap_size <= usize::MAX,
            forall|i: int| 0 <= i < free_lists@.len() ==> (#[trigger] free_lists@[i])@.len() == 0,
        ensures
            r.wf(),
            r.start() == start_addr,
            r.heap() == heap_size,
            r.orders() == free_lists@.len(),
            r.min() * pow2((free_lists@.len() - 1) as nat) == heap_size,
            r.live() == Set::<(int, nat)>::empty(),
            r.free_set() == set![(start_addr as int, (free_lists@.len() - 1) as nat)],
    {
        let n = free_lists.len();
        let ghost hk = choose|k: nat| pow2(k) == heap_size;
        let ghost top = (n - 1) as nat;
        proof {
            if hk < top + 3 {
                lemma_pow2_mono(hk, top + 2);
                lemma_pow2_adds(top, 2);
                assert(pow2(2) == 4) by {
                    reveal_with_fuel(pow2, 3);
                }
                lemma_pow2_pos(top);
            }
        }
        let mut m: usize = heap_size;
        let mut i: usize = 0;
        while i < n - 1
            invariant
                n >= 1,
                i <= n - 1,
                hk >= top + 3,
                top == n - 1,
                m == pow2((hk - i) as nat),
            decreases n - 1 - i,
        {
            proof {
                assert(pow2((hk - i) as nat) == 2 * pow2((hk - i - 1) as nat));
            }
            m = m / 2;
            i = i + 1;
        }
        proof {
            lemma_pow2_adds((hk - top) as nat, top);
            assert((hk - top) as nat + top == hk);
            lemma_pow2_pos(top);
            assert(m >= HEADER_SIZE) by (nonlinear_arith)
                requires
                    m * pow2(top) == heap_size,
                    heap_size >= HEADER_SIZE * pow2(top),
                    pow2(top) >= 1,
            ;
            assert(m * pow2(top) == pow2(top) * m) by (nonlinear_arith);
        }
        let mut lists = free_lists;
        lists[n - 1].push(start_addr);
        let r = BuddyHeapAllocator {
            start_addr,
            free_lists: lists,
            heap_size,
            min_block_size: m,
            live: Ghost(Set::empty()),
        };
        proof {
            let ls = r.lists();
            let top_block = (start_addr as int, top);
            assert forall|o: int| 0 <= o < r.orders() implies #[trigger] r.lists()[o].no_duplicates() by {
                if o != top {
                    assert(r.lists()[o].len() == 0);
                } else {
                    assert(r.lists()[o] =~= seq![start_addr]);
                }
            }
            assert forall|b: (int, nat)| r.free_set().contains(b) == (b == top_block) by {
                if b.1 < n && b.1 != top {
                    assert(ls[b.1 as int].len() == 0);
                }
                if b.1 == top {
                    assert(ls[b.1 as int] =~= seq![start_addr]);
                    if 0 <= b.0 <= usize::MAX {
                        lemma_push_contains(Seq::empty(), start_addr, b.0 as usize);
                    }
                }
            }
            assert(r.free_set() =~= set![top_block]);
            assert(r.blocks() =~= set![top_block]);
            assert(block_size(m as int, top) == heap_size);
            assert(heap_size > 0) by {
                lemma_pow2_pos(hk);
            }
            assert(0int % (heap_size as int) == 0);
            assert(block_ok(top_block, r.start(), r.heap(), r.min(), r.orders()));
            assert forall|u: int| r.start() <= u < r.start() + r.heap() implies #[trigger] covered(
                r.blocks(),
                u,
                r.min(),
            ) by {
                assert(r.blocks().contains(top_block) && covers(top_block, u, r.min()));
            }
            assert(is_power_of_two(m as int));
            assert(r.buddies_joined());
        }
        r
    }

    /// Bytes in a block of order `o`.
    fn order_size(&self, o: usize) -> (r: usize)
        requires
            self.geometry_ok(),
            o < self.orders(),
        ensures
            r == self.size_of_order(o as nat),
    {
        let mut r: usize = self.min_block_size;
        let mut i: usize = 0;
        proof {
            assert(pow2(0) == 1);
            assert(self.min() * pow2(0) == self.min());
        }
        while i < o
            invariant
                self.geometry_ok(),
                o < self.orders(),
                i <= o,
                r == self.size_of_order(i as nat),
            decreases o - i,
        {
            proof {
                lemma_block_size_double(self.min(), i as nat);
                lemma_block_size_mono(self.min(), (i + 1) as nat, (self.orders() - 1) as nat);
            }
            r = r * 2;
            i = i + 1;
        }
        r
    }

    /// The size of the block that serves a request of `size` bytes aligned
    /// on `align`: the least power of two that is at least the size, the
    /// smallest block and the alignment. `None` when the alignment is not a
    /// power of two or exceeds a page, or when that size exceeds the heap.
    pub fn alloc_size(&self, size: usize, align: usize) -> (r: Option<usize>)
        requires
            self.geometry_ok(),
        ensures
            r is None <==> !valid_align(align as int) || self.needed(size as int, align as int)
                > self.heap(),
            r matches Some(v) ==> is_next_pow2(self.needed(size as int, align as int), v as int)
                && v <= self.heap(),
    {
        if !is_pow2(align) || align > PAGE_SIZE {
            return None;
        }
        let mut m: usize = size;
        if self.min_block_size > m {
            m = self.min_block_size;
        }
        if align > m {
            m = align;
        }
        if m > self.heap_size {
            return None;
        }
        proof {
            let hk = choose|k: nat| pow2(k) == self.heap();
            let h = usize_half_exp();
            lemma_usize_half();
            if hk > h {
                lemma_pow2_mono(h + 1, hk);
            }
            lemma_pow2_mono(hk, h);
        }
        let v = next_pow2(m);
        proof {
            let hk = choose|k: nat| pow2(k) == self.heap();
            let k = choose|k: nat| #[trigger] pow2(k) == v && v >= m && (k == 0 || pow2((k - 1) as nat) < m);
            if k > hk {
                lemma_pow2_mono(hk, (k - 1) as nat);
            }
            lemma_pow2_mono(k, hk);
        }
        Some(v)
    }

    /// The order of the block that serves a request: the base-2 logarithm
    /// of `alloc_size` less that of the smallest block. `None` exactly when
    /// `alloc_size` gives `None`.
    pub fn alloc_order(&self, size: usize, align: usize) -> (r: Option<usize>)
        requires
            self.geometry_ok(),
        ensures
            r is None <==> !valid_align(align as int) || self.needed(size as int, align as int)
                > self.heap(),
            r matches Some(k) ==> k < self.orders() && self.order_for(
                size as int,
                align as int,
                k as nat,
            ),
    {
        match self.alloc_size(size, align) {
            None => None,
            Some(v) => {
                proof {
                    let vk = choose|k: nat| #[trigger] pow2(k) == v && v >= self.needed(size as int, align as int);
                    assert(is_power_of_two(v as int));
                }
                let a = log2(v);
                let b = log2(self.min_block_size);
                proof {
                    if a < b {
                        lemma_pow2_strict(a as nat, b as nat);
                    }
                }
                let k = a - b;
                proof {
                    lemma_pow2_adds(k as nat, b as nat);
                    assert(self.min() * pow2(k as nat) == pow2(b as nat) * pow2(k as nat)) by (nonlinear_arith)
                        requires
                            self.min() == pow2(b as nat),
                    ;
                    assert((k + b) as nat == k as nat + b as nat);
                    let top = (self.orders() - 1) as nat;
                    if k as nat > top {
                        lemma_pow2_strict(top, k as nat);
                        assert(self.min() * pow2(top) < self.min() * pow2(k as nat)) by (nonlinear_arith)
                            requires
                                pow2(top) < pow2(k as nat),
                                self.min() > 0,
                        ;
                    }
                    assert(self.size_of_order(k as nat) == v);
                    assert(k < self.orders());
                }
                Some(k)
            }
        }
    }

    /// Hands out a block for `size` bytes aligned on `align`, splitting a
    /// larger free block where no block of the needed order is free.
    pub fn allocate(&mut self, size: usize, align: usize) -> (r: Result<usize, AllocError>)
        requires
            old(self).wf(),
        ensures
            final(self).wf(),
            final(self).same_geometry(old(self)),
            !valid_align(align as int) ==> r == Err::<usize, AllocError>(
                AllocError::InvalidRequest,
            ),
            valid_align(align as int) && old(self).needed(size as int, align as int) > old(
                self,
            ).heap() ==> r == Err::<usize, AllocError>(AllocError::OutOfMemory),
            r is Err ==> final(self).lists() == old(self).lists() && final(self).live() == old(
                self,
            ).live(),
            forall|k: nat| #[trigger]
                old(self).order_for(size as int, align as int, k) ==> old(self).served(
                    k,
                    r,
                    &*final(self),
                ),
    {
        let k = match self.alloc_order(size, align) {
            Some(k) => k,
            None => {
                if !is_pow2(align) || align > PAGE_SIZE {
                    return Err(AllocError::InvalidRequest);
                }
                return Err(AllocError::OutOfMemory);
            },
        };
        proof {
            assert forall|k2: nat| #[trigger] old(self).order_for(size as int, align as int, k2) implies k2 == k by {
                lemma_next_pow2_unique(
                    self.needed(size as int, align as int),
                    self.size_of_order(k2),
                    self.size_of_order(k as nat),
                );
                lemma_pow2_pos(k2);
                lemma_pow2_pos(k as nat);
                assert(pow2(k2) == pow2(k as nat)) by (nonlinear_arith)
                    requires
                        self.min() * pow2(k2) == self.min() * pow2(k as nat),
                        self.min() > 0,
                ;
                crate::math::lemma_pow2_injective(k2, k as nat);
            }
        }
        let n = self.free_lists.len();
        let mut j: usize = k;
        while j < n && self.free_lists[j].is_empty()
            invariant
                k <= j <= n,
                k < n,
                n == self.orders(),
                self == old(self),
                forall|o: int| k <= o < j ==> #[trigger] self.lists()[o].len() == 0,
            decreases n - j,
        {
            j = j + 1;
        }
        if j == n {
            return Err(AllocError::OutOfMemory);
        }
        let ghost ls0 = self.lists();
        let ghost fs0 = self.free_set();
        let ghost lv = self.live();
        let popped = self.free_lists[j].pop();
        let a = match popped {
            Some(a) => a,
            None => {
                return Err(AllocError::OutOfMemory);
            },
        };
        proof {
            let h = (a as int, j as nat);
            assert(ls0[j as int].drop_last() =~= ls0[j as int].remove(ls0[j as int].len() - 1));
            assert(self.lists() =~= ls0.update(j as int, ls0[j as int].remove(ls0[j as int].len() - 1)));
            lemma_free_blocks_remove(ls0, j as int, ls0[j as int].len() - 1);
            assert(self.free_set() == fs0.remove(h));
            assert(fs0.contains(h));
            assert(self.blocks().insert(h) =~= fs0.union(lv));
            assert(self.lists() =~= split_lists(ls0, j as int, j as int, a as int, self.min()));
            assert(self.buddies_joined());
        }
        let mut cur: usize = j;
        while cur > k
            invariant
                k <= cur <= j < n,
                n == self.orders(),
                self.geometry_ok(),
                self.same_geometry(old(self)),
                self.live() == old(self).live(),
                ls0 == old(self).lists(),
                ls0[j as int].len() > 0,
                a == ls0[j as int].last(),
                forall|o: int| k <= o < j ==> #[trigger] ls0[o].len() == 0,
                forall|o: int| 0 <= o < n ==> #[trigger] self.lists()[o].no_duplicates(),
                self.free_set().disjoint(self.live()),
                self.tiles_heap(self.blocks().insert((a as int, cur as nat))),
                !self.blocks().contains((a as int, cur as nat)),
                self.lists() == split_lists(ls0, j as int, cur as int, a as int, self.min()),
                self.buddies_joined(),
            decreases cur,
        {
            let ghost ls = self.lists();
            let ghost bl = self.blocks();
            let ghost h = (a as int, cur as nat);
            proof {
                assert(self.blocks().insert(h).contains(h));
                lemma_block_size_double(self.min(), (cur - 1) as nat);
            }
            cur = cur - 1;
            let sz = self.order_size(cur);
            self.free_lists[cur].push(a + sz);
            proof {
                let hi = (a + sz, cur as nat);
                let lo = (a as int, cur as nat);
                assert(ls[cur as int].len() == 0);
                assert(self.lists() =~= ls.update(cur as int, ls[cur as int].push((a + sz) as usize)));
                lemma_free_blocks_push(ls, cur as int, (a + sz) as usize);
                let old_blocks = bl;
                assert(bl == free_blocks(ls).union(self.live()));
                lemma_split(old_blocks, h, self.start(), self.heap(), self.min(), self.orders());
                assert(self.blocks() =~= old_blocks.insert(hi));
                assert(self.lists()[cur as int] =~= seq![(a + sz) as usize]);
                assert forall|o: int| 0 <= o < n implies #[trigger] self.lists()[o].no_duplicates() by {
                    if o != cur {
                        assert(self.lists()[o] == ls[o]);
                    }
                }
                assert(self.lists() =~= split_lists(ls0, j as int, cur as int, a as int, self.min()));
                let fs = free_blocks(ls);
                let st = self.start();
                assert(block_ok(h, st, self.heap(), self.min(), self.orders()));
                lemma_halves_aligned(a - st, sz as int);
                assert(a + sz - st == (a - st) + sz);
                assert(buddy_of(hi.0, hi.1, st, self.min()) == a);
                assert(!self.free_set().contains(lo));
                assert forall|b: (int, nat)|
                    #[trigger] self.free_set().contains(b) && b.1 + 1 < self.orders() implies !self.free_set().contains(
                    (buddy_of(b.0, b.1, st, self.min()), b.1),
                ) by {
                    if b != hi {
                        assert(fs.contains(b));
                        assert(bl.insert(h).contains(b));
                        assert(block_ok(b, st, self.heap(), self.min(), self.orders()));
                        if (buddy_of(b.0, b.1, st, self.min()), b.1) == hi {
                            lemma_buddy_symmetric(b.0, b.1, st, self.min());
                            assert(b == lo);
                        }
                    }
                }
            }
        }
        let ghost h = (a as int, k as nat);
        self.live = Ghost(self.live@.insert((a as int, k as nat)));
        proof {
            assert(self.blocks() =~= free_blocks(self.lists()).union(lv).insert(h));
            assert(self.free_set().disjoint(self.live()));
            assert(old(self).served(k as nat, Ok(a), &*self));
        }
        Ok(a)
    }

    /// Releases the block at `addr` of order `order`, joining it with its
    /// buddy for as long as the buddy is free and the top order is not
    /// reached, and puts the block that results on its free list.
    pub fn deallocate(&mut self, addr: usize, order: usize)
        requires
            old(self).wf(),
            old(self).live().contains((addr as int, order as nat)),
        ensures
            final(self).wf(),
            final(self).same_geometry(old(self)),
            final(self).live() == old(self).live().remove((addr as int, order as nat)),
            final(self).free_set() == coalesced(
                old(self).free_set(),
                addr as int,
                order as nat,
                old(self).start(),
                old(self).min(),
                old(self).orders(),
            ),
    {
        let n = self.free_lists.len();
        let ghost x0 = (addr as int, order as nat);
        let ghost target = coalesced(
            self.free_set(),
            addr as int,
            order as nat,
            self.start(),
            self.min(),
            self.orders(),
        );
        proof {
            assert(self.blocks().contains(x0));
            assert(!self.free_set().contains(x0));
        }
        self.live = Ghost(self.live@.remove(x0));
        proof {
            assert(self.blocks().insert(x0) =~= old(self).blocks());
        }
        let mut a: usize = addr;
        let mut o: usize = order;
        let mut done = false;
        while !done && o + 1 < n
            invariant
                o < n,
                n == self.orders(),
                self.geometry_ok(),
                self.same_geometry(old(self)),
                self.live() == old(self).live().remove(x0),
                forall|i: int| 0 <= i < n ==> #[trigger] self.lists()[i].no_duplicates(),
                self.free_set().disjoint(self.live()),
                self.tiles_heap(self.blocks().insert((a as int, o as nat))),
                !self.blocks().contains((a as int, o as nat)),
                target == coalesced(
                    self.free_set(),
                    a as int,
                    o as nat,
                    self.start(),
                    self.min(),
                    self.orders(),
                ),
                done ==> !self.free_set().contains(
                    (buddy_of(a as int, o as nat, self.start(), self.min()), o as nat),
                ),
                self.buddies_joined(),
            decreases n - o + (if done {
                0int
            } else {
                1int
            }),
        {
            let ghost h = (a as int, o as nat);
            let ghost ls = self.lists();
            let ghost bl = self.blocks();
            let ghost fs = self.free_set();
            let sz = self.order_size(o);
            proof {
                assert(bl.insert(h).contains(h));
                assert(block_ok(h, self.start(), self.heap(), self.min(), self.orders()));
                lemma_block_size_double(self.min(), o as nat);
                lemma_block_size_mono(self.min(), (o + 1) as nat, (n - 1) as nat);
                lemma_parent_aligned(a - self.start(), sz as int);
            }
            let off = a - self.start_addr;
            let bud = if off % (2 * sz) == 0 {
                a + sz
            } else {
                a - sz
            };
            let ghost bb = (bud as int, o as nat);
            proof {
                assert(bud == buddy_of(a as int, o as nat, self.start(), self.min()));
            }
            if self.free_lists[o].remove(bud) {
                proof {
                    let i = choose|i: int|
                        0 <= i < ls[o as int].len() && ls[o as int][i] == bud && self.lists()[o as int]
                            == ls[o as int].remove(i) && forall|j: int|
                            i < j < ls[o as int].len() ==> ls[o as int][j] != bud;
                    assert(self.lists() =~= ls.update(o as int, ls[o as int].remove(i)));
                    lemma_free_blocks_remove(ls, o as int, i);
                    assert(fs.contains(bb));
                    lemma_merge(bl, h, self.start(), self.heap(), self.min(), self.orders());
                    assert(self.blocks() =~= bl.remove(bb));
                    assert forall|j: int| 0 <= j < n implies #[trigger] self.lists()[j].no_duplicates() by {
                        if j != o {
                            assert(self.lists()[j] == ls[j]);
                        }
                    }
                    assert forall|b: (int, nat)|
                        #[trigger] self.free_set().contains(b) && b.1 + 1 < self.orders() implies !self.free_set().contains(
                        (buddy_of(b.0, b.1, self.start(), self.min()), b.1),
                    ) by {
                        assert(fs.contains(b));
                    }
                }
                a = if a < bud {
                    a
                } else {
                    bud
                };
                o = o + 1;
            } else {
                proof {
                    assert(self.lists() =~= ls);
                }
                done = true;
            }
        }
        let ghost ls = self.lists();
        let ghost bl = self.blocks();
        let ghost h = (a as int, o as nat);
        proof {
            assert(!self.free_set().contains(h));
            assert(0 <= a <= usize::MAX);
            assert(!ls[o as int].contains(a));
            lemma_push_no_duplicates(ls[o as int], a);
        }
        self.free_lists[o].push(a);
        proof {
            assert(self.lists() =~= ls.update(o as int, ls[o as int].push(a)));
            lemma_free_blocks_push(ls, o as int, a);
            assert(self.blocks() =~= bl.insert(h));
            assert forall|j: int| 0 <= j < n implies #[trigger] self.lists()[j].no_duplicates() by {
                if j != o {
                    assert(self.lists()[j] == ls[j]);
                }
            }
            let fs = free_blocks(ls);
            let st = self.start();
            assert(bl.insert(h).contains(h));
            assert(block_ok(h, st, self.heap(), self.min(), self.orders()));
            lemma_block_size_double(self.min(), o as nat);
            assert forall|b: (int, nat)|
                #[trigger] self.free_set().contains(b) && b.1 + 1 < self.orders() implies !self.free_set().contains(
                (buddy_of(b.0, b.1, st, self.min()), b.1),
            ) by {
                if b == h {
                    assert(buddy_of(a as int, o as nat, st, self.min()) != a);
                } else {
                    assert(fs.contains(b));
                    assert(bl.insert(h).contains(b));
                    assert(block_ok(b, st, self.heap(), self.min(), self.orders()));
                    if (buddy_of(b.0, b.1, st, self.min()), b.1) == h {
                        lemma_buddy_symmetric(b.0, b.1, st, self.min());
                        assert(fs.contains((buddy_of(a as int, o as nat, st, self.min()), o as nat)));
                    }
                }
            }
        }
    }

    /// Address of the heap's first byte.
    pub fn start_addr(&self) -> (r: usize)
        ensures
            r == self.start(),
    {
        self.start_addr
    }

    /// Bytes in the heap.
    pub fn heap_size(&self) -> (r: usize)
        ensures
            r == self.heap(),
    {
        self.heap_size
    }

    /// Bytes in a block of order 0.
    pub fn min_block_size(&self) -> (r: usize)
        ensures
            r == self.min(),
    {
        self.min_block_size
    }

    /// Number of orders.
    pub fn num_orders(&self) -> (r: usize)
        ensures
            r == self.orders(),
    {
        self.free_lists.len()
    }

    /// Number of free blocks of order `o`.
    pub fn free_count(&self, o: usize) -> (r: usize)
        requires
            o < self.orders(),
        ensures
            r == self.lists()[o as int].len(),
    {
        self.free_lists[o].len()
    }

    /// The free blocks of order `o`, from the head of its list down.
    pub fn free_blocks_of(&self, o: usize) -> (r: Vec<usize>)
        requires
            o < self.orders(),
        ensures
            crate::free_list::head_first(self.lists()[o as int], r@),
    {
        self.free_lists[o].iter()
    }
}

/// At every moment the free blocks and the blocks handed out tile the heap:
/// each lies inside the heap on its own alignment, no two overlap, every
/// byte is in one of them, and none is both free and handed out.
pub proof fn lemma_heap_tiled(h: &BuddyHeapAllocator)
    requires
        h.wf(),
    ensures
        tiles(h.free_set().union(h.live()), h.start(), h.heap(), h.min(), h.orders()),
        h.free_set().disjoint(h.live()),
{
}

/// On an allocator whose whole heap is one free block, a request for the
/// whole heap succeeds with the heap's start, and the same request made
/// right after fails for want of memory.
pub proof fn lemma_whole_heap_once(
    a0: &BuddyHeapAllocator,
    a1: &BuddyHeapAllocator,
    a2: &BuddyHeapAllocator,
    size: int,
    align: int,
    r1: Result<usize, AllocError>,
    r2: Result<usize, AllocError>,
)
    requires
        a0.wf(),
        a0.free_set() == set![(a0.start(), (a0.orders() - 1) as nat)],
        a0.needed(size, align) == a0.heap(),
        valid_align(align),
        a0.served((a0.orders() - 1) as nat, r1, a1),
        a1.same_geometry(a0),
        a1.served((a0.orders() - 1) as nat, r2, a2),
    ensures
        r1 == Ok::<usize, AllocError>(a0.start() as usize),
        r2 == Err::<usize, AllocError>(AllocError::OutOfMemory),
{
    let top = (a0.orders() - 1) as nat;
    let ls = a0.lists();
    assert forall|o: int| 0 <= o < top implies #[trigger] ls[o].len() == 0 by {
        if ls[o].len() > 0 {
            assert(ls[o].contains(ls[o][0]));
            assert(a0.free_set().contains((ls[o][0] as int, o as nat)));
        }
    }
    assert(ls[top as int].len() == 1) by {
        let l = ls[top as int];
        assert(a0.free_set().contains((a0.start(), top)));
        if l.len() > 1 {
            assert(l.contains(l[0]) && l.contains(l[1]));
            assert(a0.free_set().contains((l[0] as int, top)));
            assert(a0.free_set().contains((l[1] as int, top)));
            assert(l.no_duplicates());
        }
    }
    let l = ls[top as int];
    assert(l.contains(l[0]));
    assert(a0.free_set().contains((l[0] as int, top)));
    assert(l.last() == a0.start());
    let j = choose|j: int|
        top <= j < a0.orders() && #[trigger] ls[j].len() > 0 && (forall|o: int|
            top <= o < j ==> #[trigger] ls[o].len() == 0) && r1 == Ok::<usize, AllocError>(
            ls[j].last(),
        ) && a1.live() == a0.live().insert((ls[j].last() as int, top)) && a1.lists()
            == split_lists(ls, j, top as int, ls[j].last() as int, a0.min());
    assert(j == top);
    assert forall|o: int| top <= o < a1.orders() implies #[trigger] a1.lists()[o].len() == 0 by {
        assert(o == top);
    }
}

/// Once every block handed out has been released, in whatever order, and in
/// particular after a run of allocations released in the order they were
/// made, the heap is again one free block of the top order.
pub proof fn lemma_all_released(h: &BuddyHeapAllocator)
    requires
        h.wf(),
        h.live() == Set::<(int, nat)>::empty(),
    ensures
        h.free_set() == set![(h.start(), (h.orders() - 1) as nat)],
{
    assert(h.blocks() =~= h.free_set());
    lemma_tiling_without_buddies(h.free_set(), h.start(), h.heap(), h.min(), h.orders());
}

} // verus!
