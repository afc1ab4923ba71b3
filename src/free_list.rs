//! Free lists: stacks of equally sized free blocks, each named by its address.
use vstd::prelude::*;

verus! {

/// Bytes taken by the header written into a free block: one link word.
pub const HEADER_SIZE: usize = 8;

/// The header that a free block holds: the address of the next free block of
/// the same order, if there is one.
#[derive(Clone, Copy, Debug)]
pub struct Free {
    pub next: Option<usize>,
}

/// A stack of free blocks of one order. The most recently pushed block is the
/// head; `blocks` holds them from the oldest to the head.
pub struct FreeList {
    blocks: Vec<usize>,
}

impl View for FreeList {
    type V = Seq<usize>;

    /// The blocks from the oldest to the head.
    closed spec fn view(&self) -> Seq<usize> {
        self.blocks@
    }
}

/// `r` holds the blocks of `s` from the head down.
pub open spec fn head_first(s: Seq<usize>, r: Seq<usize>) -> bool {
    &&& r.len() == s.len()
    &&& forall|i: int| 0 <= i < s.len() ==> #[trigger] r[i] == s[s.len() - 1 - i]
}

impl FreeList {
    /// An empty free list.
    pub fn new() -> (r: FreeList)
        ensures
            r@ == Seq::<usize>::empty(),
    {
        FreeList { blocks: Vec::new() }
    }

    /// Number of blocks in the list.
    pub fn len(&self) -> (r: usize)
        ensures
            r == self@.len(),
    {
        self.blocks.len()
    }

    pub fn is_empty(&self) -> (r: bool)
        ensures
            r == (self@.len() == 0),
    {
        self.blocks.len() == 0
    }

    /// Links `block` in front of the current head.
    pub fn push(&mut self, block: usize)
        ensures
            final(self)@ == old(self)@.push(block),
    {
        self.blocks.push(block);
    }

    /// Unlinks the head and returns it, or `None` when the list is empty.
    pub fn pop(&mut self) -> (r: Option<usize>)
        ensures
            old(self)@.len() == 0 ==> r is None && final(self)@ == old(self)@,
            old(self)@.len() > 0 ==> r == Some(old(self)@.last()) && final(self)@
                == old(self)@.drop_last(),
    {
        self.blocks.pop()
    }

    /// Searches the list from the head for `target` and unlinks the first
    /// block found there; returns whether one was found. A missing target
    /// leaves the list as it was.
    pub fn remove(&mut self, target: usize) -> (r: bool)
        ensures
            r == old(self)@.contains(target),
            !r ==> final(self)@ == old(self)@,
            r ==> exists|i: int|
                0 <= i < old(self)@.len() && old(self)@[i] == target && final(self)@ == old(
                    self,
                )@.remove(i) && forall|j: int| i < j < old(self)@.len() ==> old(self)@[j] != target,
    {
        let mut i: usize = self.blocks.len();
        while i > 0
            invariant
                i <= self.blocks@.len(),
                self.blocks@ == old(self).blocks@,
                forall|j: int| i <= j < self.blocks@.len() ==> self.blocks@[j] != target,
            decreases i,
        {
            i = i - 1;
            if self.blocks[i] == target {
                self.blocks.remove(i);
                assert(old(self)@[i as int] == target);
                return true;
            }
        }
        false
    }

    /// The blocks from the head down: the order in which a walk along the
    /// links visits them.
    pub fn iter(&self) -> (r: Vec<usize>)
        ensures
            head_first(self@, r@),
    {
        let mut r: Vec<usize> = Vec::new();
        let n = self.blocks.len();
        while r.len() < n
            invariant
                n == self@.len(),
                r@.len() <= n,
                forall|i: int| 0 <= i < r@.len() ==> #[trigger] r@[i] == self@[n - 1 - i],
            decreases n - r@.len(),
        {
            let k = r.len();
            r.push(self.blocks[n - 1 - k]);
        }
        r
    }

    /// The header held by the block `i` places below the head.
    pub fn header(&self, i: usize) -> (r: Free)
        requires
            i < self@.len(),
        ensures
            i + 1 < self@.len() ==> r.next == Some(self@[self@.len() - 2 - i]),
            i + 1 == self@.len() ==> r.next is None,
    {
        let n = self.blocks.len();
        if i + 1 < n {
            Free { next: Some(self.blocks[n - 2 - i]) }
        } else {
            Free { next: None }
        }
    }
}

/// Pushing `a` adds exactly `a` to what a sequence holds.
pub proof fn lemma_push_contains(s: Seq<usize>, a: usize, x: usize)
    ensures
        s.push(a).contains(x) == (s.contains(x) || x == a),
{
    if s.contains(x) {
        let i = choose|i: int| 0 <= i < s.len() && s[i] == x;
        assert(s.push(a)[i] == x);
    }
    assert(s.push(a)[s.len() as int] == a);
}

/// Removing a position of a sequence without duplicates takes away exactly
/// the value at that position.
pub proof fn lemma_remove_contains(s: Seq<usize>, i: int, x: usize)
    requires
        s.no_duplicates(),
        0 <= i < s.len(),
    ensures
        s.remove(i).contains(x) == (s.contains(x) && x != s[i]),
        s.remove(i).no_duplicates(),
{
    let r = s.remove(i);
    if s.contains(x) && x != s[i] {
        let j = choose|j: int| 0 <= j < s.len() && s[j] == x;
        if j < i {
            assert(r[j] == x);
        } else {
            assert(r[j - 1] == x);
        }
    }
    if r.contains(x) {
        let j = choose|j: int| 0 <= j < r.len() && r[j] == x;
        if j < i {
            assert(s[j] == x);
        } else {
            assert(s[j + 1] == x);
        }
    }
    assert forall|a: int, b: int| 0 <= a < r.len() && 0 <= b < r.len() && a != b implies r[a]
        != r[b] by {
        let sa = if a < i { a } else { a + 1 };
        let sb = if b < i { b } else { b + 1 };
        assert(r[a] == s[sa] && r[b] == s[sb]);
    }
}

/// Pushing a value that a sequence lacks keeps it free of duplicates.
pub proof fn lemma_push_no_duplicates(s: Seq<usize>, a: usize)
    requires
        s.no_duplicates(),
        !s.contains(a),
    ensures
        s.push(a).no_duplicates(),
{
    let r = s.push(a);
    assert forall|i: int, j: int| 0 <= i < r.len() && 0 <= j < r.len() && i != j implies r[i]
        != r[j] by {
        if i < s.len() && j == s.len() {
            assert(s.contains(s[i]));
        }
        if j < s.len() && i == s.len() {
            assert(s.contains(s[j]));
        }
    }
}

} // verus!
