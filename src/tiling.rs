//! Blocks of a buddy heap and the way they tile it.
//!
//! A block is a pair of a start address and an order; a block of order `o`
//! spans `min * 2^o` bytes and starts at a multiple of that size from the
//! heap's start.
use vstd::prelude::*;
use vstd::arithmetic::div_mod::{
    lemma_fundamental_div_mod,
    lemma_mod_multiples_basic,
    lemma_mod_multiples_vanish,
    lemma_small_mod,
};
use vstd::arithmetic::mul::lemma_mul_inequality;
use crate::math::{pow2, lemma_pow2_pos, lemma_pow2_mono, lemma_pow2_adds};

verus! {

/// Bytes in a block of order `o`.
pub open spec fn block_size(min: int, o: nat) -> int {
    min * pow2(o)
}

/// `b` is a block of the heap `[start, start + heap)`: its order is below `n`,
/// it lies inside the heap and it is aligned on its own size.
pub open spec fn block_ok(b: (int, nat), start: int, heap: int, min: int, n: nat) -> bool {
    &&& b.1 < n
    &&& block_size(min, b.1) > 0
    &&& start <= b.0
    &&& b.0 + block_size(min, b.1) <= start + heap
    &&& (b.0 - start) % block_size(min, b.1) == 0
}

/// The block `b` holds the byte at `u`.
pub open spec fn covers(b: (int, nat), u: int, min: int) -> bool {
    b.0 <= u < b.0 + block_size(min, b.1)
}

/// The two blocks share no byte.
pub open spec fn apart(b1: (int, nat), b2: (int, nat), min: int) -> bool {
    b1.0 + block_size(min, b1.1) <= b2.0 || b2.0 + block_size(min, b2.1) <= b1.0
}

/// Some block of `s` holds the byte at `u`.
pub open spec fn covered(s: Set<(int, nat)>, u: int, min: int) -> bool {
    exists|b: (int, nat)| s.contains(b) && covers(b, u, min)
}

/// The blocks of `s` tile the heap: each is a block of the heap, no two
/// share a byte, and every byte of the heap is in one of them.
pub open spec fn tiles(s: Set<(int, nat)>, start: int, heap: int, min: int, n: nat) -> bool {
    &&& forall|b: (int, nat)| #[trigger] s.contains(b) ==> block_ok(b, start, heap, min, n)
    &&& forall|b1: (int, nat), b2: (int, nat)|
        #[trigger] s.contains(b1) && #[trigger] s.contains(b2) && b1 != b2 ==> apart(b1, b2, min)
    &&& forall|u: int| start <= u < start + heap ==> #[trigger] covered(s, u, min)
}

/// The address of the buddy of the block at `a` of order `o`: the offset
/// from the heap's start with the bit of the block size flipped.
pub open spec fn buddy_of(a: int, o: nat, start: int, min: int) -> int {
    if (a - start) % (2 * block_size(min, o)) == 0 {
        a + block_size(min, o)
    } else {
        a - block_size(min, o)
    }
}

pub proof fn lemma_block_size_double(min: int, o: nat)
    requires
        min > 0,
    ensures
        block_size(min, o + 1) == 2 * block_size(min, o),
        block_size(min, o) > 0,
{
    assert(pow2(o + 1) == 2 * pow2(o));
    lemma_pow2_pos(o);
    assert(min * pow2(o + 1) == 2 * (min * pow2(o))) by (nonlinear_arith)
        requires
            pow2(o + 1) == 2 * pow2(o),
    ;
    assert(min * pow2(o) > 0) by (nonlinear_arith)
        requires
            min > 0,
            pow2(o) >= 1,
    ;
}

pub proof fn lemma_block_size_mono(min: int, a: nat, b: nat)
    requires
        min > 0,
        a <= b,
    ensures
        0 < block_size(min, a) <= block_size(min, b),
{
    lemma_pow2_mono(a, b);
    lemma_pow2_pos(a);
    assert(0 < min * pow2(a) <= min * pow2(b)) by (nonlinear_arith)
        requires
            min > 0,
            1 <= pow2(a) <= pow2(b),
    ;
}

/// Halving an aligned block gives two aligned halves.
pub proof fn lemma_halves_aligned(x: int, s: int)
    requires
        s > 0,
        x % (2 * s) == 0,
    ensures
        x % s == 0,
        (x + s) % s == 0,
        (x + s) % (2 * s) == s,
{
    lemma_fundamental_div_mod(x, 2 * s);
    let q = x / (2 * s);
    assert(x == (2 * q) * s) by (nonlinear_arith)
        requires
            x == 2 * s * q,
    ;
    assert(x + s == (2 * q + 1) * s) by (nonlinear_arith)
        requires
            x == 2 * s * q,
    ;
    lemma_mod_multiples_basic(2 * q, s);
    lemma_mod_multiples_basic(2 * q + 1, s);
    lemma_mod_multiples_vanish(q, s, 2 * s);
    lemma_small_mod(s as nat, (2 * s) as nat);
}

/// An offset aligned on `s` is either aligned on `2 * s` or lies `s` past
/// such an offset.
pub proof fn lemma_parent_aligned(x: int, s: int)
    requires
        s > 0,
        x >= 0,
        x % s == 0,
    ensures
        x % (2 * s) == 0 || (x % (2 * s) == s && (x - s) % (2 * s) == 0 && x >= s),
{
    lemma_fundamental_div_mod(x, s);
    let q = x / s;
    assert(x == s * q);
    lemma_fundamental_div_mod(q, 2);
    let r = q / 2;
    if q % 2 == 0 {
        assert(x == (2 * s) * r) by (nonlinear_arith)
            requires
                x == s * q,
                q == 2 * r,
        ;
        lemma_mod_multiples_vanish(r, 0, 2 * s);
    } else {
        assert(q >= 0) by (nonlinear_arith)
            requires
                x == s * q,
                x >= 0,
                s > 0,
        ;
        assert(x == (2 * s) * r + s && x >= s) by (nonlinear_arith)
            requires
                x == s * q,
                q == 2 * r + 1,
                q >= 0,
                s > 0,
        ;
        lemma_mod_multiples_vanish(r, s, 2 * s);
        lemma_small_mod(s as nat, (2 * s) as nat);
        lemma_mod_multiples_vanish(r, 0, 2 * s);
    }
}

/// Splitting a block that is held apart from a tiling set into its two
/// halves, the upper one joining the set, keeps the tiling.
pub proof fn lemma_split(s: Set<(int, nat)>, h: (int, nat), start: int, heap: int, min: int, n: nat)
    requires
        tiles(s.insert(h), start, heap, min, n),
        !s.contains(h),
        h.1 > 0,
        min > 0,
    ensures
        ({
            let o = (h.1 - 1) as nat;
            let lo = (h.0, o);
            let hi = (h.0 + block_size(min, o), o);
            &&& tiles(s.insert(hi).insert(lo), start, heap, min, n)
            &&& !s.insert(hi).contains(lo)
            &&& !s.contains(hi)
        }),
{
    let o = (h.1 - 1) as nat;
    let sz = block_size(min, o);
    let lo = (h.0, o);
    let hi = (h.0 + sz, o);
    let t = s.insert(h);
    let t2 = s.insert(hi).insert(lo);
    lemma_block_size_double(min, o);
    assert(t.contains(h));
    assert(block_ok(h, start, heap, min, n));
    lemma_halves_aligned(h.0 - start, sz);
    assert(h.0 + sz - start == (h.0 - start) + sz);
    if s.contains(hi) {
        assert(t.contains(hi));
        assert(apart(hi, h, min));
    }
    if s.contains(lo) {
        assert(t.contains(lo));
        assert(apart(lo, h, min));
    }
    assert forall|b: (int, nat)| #[trigger] t2.contains(b) implies block_ok(
        b,
        start,
        heap,
        min,
        n,
    ) by {
        if b != lo && b != hi {
            assert(t.contains(b));
        }
    }
    assert forall|b1: (int, nat), b2: (int, nat)|
        #[trigger] t2.contains(b1) && #[trigger] t2.contains(b2) && b1 != b2 implies apart(
        b1,
        b2,
        min,
    ) by {
        if b1 != lo && b1 != hi {
            assert(t.contains(b1));
            assert(apart(b1, h, min));
        }
        if b2 != lo && b2 != hi {
            assert(t.contains(b2));
            assert(apart(b2, h, min));
        }
        if b1 != lo && b1 != hi && b2 != lo && b2 != hi {
            assert(t.contains(b1) && t.contains(b2));
        }
    }
    assert forall|u: int| start <= u < start + heap implies #[trigger] covered(t2, u, min) by {
        assert(covered(t, u, min));
        let b = choose|b: (int, nat)| t.contains(b) && covers(b, u, min);
        if b == h {
            if u < h.0 + sz {
                assert(t2.contains(lo) && covers(lo, u, min));
            } else {
                assert(t2.contains(hi) && covers(hi, u, min));
            }
        } else {
            assert(t2.contains(b) && covers(b, u, min));
        }
    }
}

/// Joining a block held apart from a tiling set with its buddy, taken out of
/// the set, gives a parent block that keeps the tiling.
pub proof fn lemma_merge(
    s: Set<(int, nat)>,
    h: (int, nat),
    start: int,
    heap: int,
    min: int,
    n: nat,
)
    requires
        tiles(s.insert(h), start, heap, min, n),
        !s.contains(h),
        s.contains((buddy_of(h.0, h.1, start, min), h.1)),
        h.1 + 1 < n,
        min > 0,
    ensures
        ({
            let bud = buddy_of(h.0, h.1, start, min);
            let p = (if h.0 < bud { h.0 } else { bud }, h.1 + 1);
            &&& tiles(s.remove((bud, h.1)).insert(p), start, heap, min, n)
            &&& !s.remove((bud, h.1)).contains(p)
        }),
{
    let o = h.1;
    let sz = block_size(min, o);
    let bud = buddy_of(h.0, o, start, min);
    let bb = (bud, o);
    let p = (if h.0 < bud { h.0 } else { bud }, o + 1);
    let t = s.insert(h);
    let r = s.remove(bb);
    let t2 = r.insert(p);
    lemma_block_size_double(min, o);
    assert(t.contains(h) && t.contains(bb));
    assert(block_ok(h, start, heap, min, n));
    assert(block_ok(bb, start, heap, min, n));
    lemma_parent_aligned(h.0 - start, sz);
    if (h.0 - start) % (2 * sz) != 0 {
        assert(h.0 - sz - start == (h.0 - start) - sz);
    }
    assert(block_ok(p, start, heap, min, n));
    assert forall|c: (int, nat)| r.contains(c) implies apart(c, p, min) && c != p by {
        assert(t.contains(c) && c != h && c != bb);
        assert(apart(c, h, min));
        assert(apart(c, bb, min));
    }
    assert forall|b: (int, nat)| #[trigger] t2.contains(b) implies block_ok(
        b,
        start,
        heap,
        min,
        n,
    ) by {
        if b != p {
            assert(t.contains(b));
        }
    }
    assert forall|b1: (int, nat), b2: (int, nat)|
        #[trigger] t2.contains(b1) && #[trigger] t2.contains(b2) && b1 != b2 implies apart(
        b1,
        b2,
        min,
    ) by {
        if b1 != p && b2 != p {
            assert(t.contains(b1) && t.contains(b2));
        } else if b1 == p {
            assert(r.contains(b2));
        } else {
            assert(r.contains(b1));
        }
    }
    assert forall|u: int| start <= u < start + heap implies #[trigger] covered(t2, u, min) by {
        assert(covered(t, u, min));
        let b = choose|b: (int, nat)| t.contains(b) && covers(b, u, min);
        if b == h || b == bb {
            assert(t2.contains(p) && covers(p, u, min));
        } else {
            assert(t2.contains(b) && covers(b, u, min));
        }
    }
}

/// No free block has its buddy free beside it, below the top order.
pub open spec fn no_free_buddies(free: Set<(int, nat)>, start: int, min: int, n: nat) -> bool {
    forall|b: (int, nat)|
        #[trigger] free.contains(b) && b.1 + 1 < n ==> !free.contains(
            (buddy_of(b.0, b.1, start, min), b.1),
        )
}

/// The buddy of a block's buddy is the block itself.
pub proof fn lemma_buddy_symmetric(a: int, o: nat, start: int, min: int)
    requires
        min > 0,
        a >= start,
        (a - start) % block_size(min, o) == 0,
    ensures
        buddy_of(buddy_of(a, o, start, min), o, start, min) == a,
{
    let sz = block_size(min, o);
    lemma_block_size_double(min, o);
    lemma_parent_aligned(a - start, sz);
    if (a - start) % (2 * sz) == 0 {
        lemma_halves_aligned(a - start, sz);
        assert(a + sz - start == (a - start) + sz);
    } else {
        assert(a - sz - start == (a - start) - sz);
        lemma_halves_aligned(a - sz - start, sz);
        assert(a - sz - start + sz == a - start);
    }
}

/// A block of a higher order spans a whole number of blocks of a lower one.
pub proof fn lemma_block_size_multiple(min: int, a: nat, b: nat)
    requires
        a <= b,
        min > 0,
    ensures
        block_size(min, b) == block_size(min, a) * pow2((b - a) as nat),
        pow2((b - a) as nat) >= 1,
{
    lemma_pow2_adds(a, (b - a) as nat);
    assert(a + (b - a) as nat == b);
    lemma_pow2_pos((b - a) as nat);
    assert(min * pow2(b) == (min * pow2(a)) * pow2((b - a) as nat)) by (nonlinear_arith)
        requires
            pow2(b) == pow2(a) * pow2((b - a) as nat),
    ;
}

/// What is aligned on `t * k` is aligned on `t`.
pub proof fn lemma_mod_coarser(y: int, t: int, k: int)
    requires
        t > 0,
        k > 0,
        y % (t * k) == 0,
    ensures
        y % t == 0,
{
    assert(t * k > 0) by (nonlinear_arith)
        requires
            t > 0,
            k > 0,
    ;
    lemma_fundamental_div_mod(y, t * k);
    let q = y / (t * k);
    assert(y == (k * q) * t) by (nonlinear_arith)
        requires
            y == (t * k) * q,
    ;
    lemma_mod_multiples_basic(k * q, t);
}

/// An aligned span of `t` bytes that shares a byte with an aligned span of
/// `t * m` bytes lies inside it.
pub proof fn lemma_nested(c: int, p: int, v: int, t: int, m: int)
    requires
        t > 0,
        m >= 1,
        c % t == 0,
        p % t == 0,
        c <= v < c + t * m,
        p <= v < p + t,
    ensures
        c <= p,
        p + t <= c + t * m,
{
    lemma_fundamental_div_mod(c, t);
    lemma_fundamental_div_mod(p, t);
    let i = c / t;
    let q = p / t;
    assert(t * i == c && t * q == p);
    assert(t * (q + 1) == p + t) by (nonlinear_arith)
        requires
            t * q == p,
    ;
    assert(t * (i + m) == c + t * m) by (nonlinear_arith)
        requires
            t * i == c,
    ;
    assert(t * i == i * t && t * q == q * t && t * (q + 1) == (q + 1) * t && t * (i + m) == (i + m) * t) by (nonlinear_arith);
    if i > q {
        lemma_mul_inequality(q + 1, i, t);
        assert(false);
    }
    lemma_mul_inequality(i, q, t);
    if q + 1 > i + m {
        lemma_mul_inequality(i + m, q, t);
        assert(false);
    }
    lemma_mul_inequality(q + 1, i + m, t);
}

/// Some block of `s` has an order no block of `s` goes below.
proof fn lemma_lowest_order(s: Set<(int, nat)>, b: (int, nat))
    requires
        s.contains(b),
    ensures
        exists|m: (int, nat)| s.contains(m) && forall|c: (int, nat)| #[trigger] s.contains(c) ==> c.1 >= m.1,
    decreases b.1,
{
    if exists|c: (int, nat)| #[trigger] s.contains(c) && c.1 < b.1 {
        let c = choose|c: (int, nat)| #[trigger] s.contains(c) && c.1 < b.1;
        lemma_lowest_order(s, c);
    } else {
        assert(forall|c: (int, nat)| #[trigger] s.contains(c) ==> c.1 >= b.1);
    }
}

/// A set of blocks that tiles the heap with no two free buddies side by side
/// is the single block of the top order.
pub proof fn lemma_tiling_without_buddies(s: Set<(int, nat)>, start: int, heap: int, min: int, n: nat)
    requires
        tiles(s, start, heap, min, n),
        no_free_buddies(s, start, min, n),
        min > 0,
        n >= 1,
        heap == block_size(min, (n - 1) as nat),
    ensures
        s == set![(start, (n - 1) as nat)],
{
    let top = (n - 1) as nat;
    lemma_block_size_mono(min, 0, top);
    assert(covered(s, start, min));
    let b0 = choose|b: (int, nat)| s.contains(b) && covers(b, start, min);
    lemma_lowest_order(s, b0);
    let m = choose|m: (int, nat)| s.contains(m) && forall|c: (int, nat)| #[trigger] s.contains(c) ==> c.1 >= m.1;
    assert(block_ok(m, start, heap, min, n));
    if m.1 + 1 < n {
        let o = m.1;
        let sz = block_size(min, o);
        let x = m.0 - start;
        let bud = buddy_of(m.0, o, start, min);
        lemma_block_size_double(min, o);
        lemma_parent_aligned(x, sz);
        lemma_block_size_multiple(min, o + 1, top);
        let mh = pow2((top - (o + 1)) as nat);
        let p = if m.0 < bud { m.0 } else { bud };
        if x % (2 * sz) == 0 {
            lemma_nested(0, x, x, 2 * sz, mh as int);
            lemma_halves_aligned(x, sz);
        } else {
            assert(x - sz == p - start);
            lemma_halves_aligned(x - sz, sz);
        }
        assert((p - start) % (2 * sz) == 0);
        assert(start <= bud && bud + sz <= start + heap);
        assert(covered(s, bud, min));
        let c = choose|c: (int, nat)| s.contains(c) && covers(c, bud, min);
        assert(block_ok(c, start, heap, min, n));
        assert(c.1 >= o);
        if c.1 == o {
            assert((bud - start) % sz == 0);
            lemma_nested(c.0 - start, bud - start, bud - start, sz, 1);
            assert(c == (bud, o));
            assert(false);
        } else {
            lemma_block_size_multiple(min, o + 1, c.1);
            let k = pow2((c.1 - (o + 1)) as nat);
            lemma_mod_coarser(c.0 - start, 2 * sz, k as int);
            lemma_nested(c.0 - start, p - start, bud - start, 2 * sz, k as int);
            assert(c != m);
            assert(apart(c, m, min));
            assert(false);
        }
    }
    assert forall|b: (int, nat)| s.contains(b) implies b == (start, top) by {
        assert(block_ok(b, start, heap, min, n));
        assert(b.1 >= m.1);
        assert(b.1 == top);
        assert(b.0 == start);
    }
    assert(s =~= set![(start, top)]);
}

} // verus!
