//! Power-of-two arithmetic used to size and place blocks.
use vstd::prelude::*;

verus! {

/// Two raised to the power `k`.
pub open spec fn pow2(k: nat) -> nat
    decreases k,
{
    if k == 0 {
        1
    } else {
        2 * pow2((k - 1) as nat)
    }
}

/// `x` is `2^k` for some `k`.
pub open spec fn is_power_of_two(x: int) -> bool {
    exists|k: nat| pow2(k) == x
}

/// `r` is the least power of two that is at least `x`.
pub open spec fn is_next_pow2(x: int, r: int) -> bool {
    exists|k: nat| #[trigger] pow2(k) == r && r >= x && (k == 0 || pow2((k - 1) as nat) < x)
}

pub proof fn lemma_pow2_pos(k: nat)
    ensures
        pow2(k) >= 1,
    decreases k,
{
    if k > 0 {
        lemma_pow2_pos((k - 1) as nat);
    }
}

/// `pow2` is strictly increasing.
pub proof fn lemma_pow2_strict(a: nat, b: nat)
    requires
        a < b,
    ensures
        pow2(a) < pow2(b),
    decreases b - a,
{
    lemma_pow2_pos(a);
    if a + 1 < b {
        lemma_pow2_strict(a, (b - 1) as nat);
    }
}

pub proof fn lemma_pow2_mono(a: nat, b: nat)
    requires
        a <= b,
    ensures
        pow2(a) <= pow2(b),
{
    if a < b {
        lemma_pow2_strict(a, b);
    }
}

/// Equal powers of two have equal exponents.
pub proof fn lemma_pow2_injective(a: nat, b: nat)
    requires
        pow2(a) == pow2(b),
    ensures
        a == b,
{
    if a < b {
        lemma_pow2_strict(a, b);
    } else if b < a {
        lemma_pow2_strict(b, a);
    }
}

pub proof fn lemma_pow2_adds(a: nat, b: nat)
    ensures
        pow2(a + b) == pow2(a) * pow2(b),
    decreases b,
{
    if b > 0 {
        lemma_pow2_adds(a, (b - 1) as nat);
        assert(pow2(a + b) == 2 * pow2((a + b - 1) as nat));
        assert((a + b - 1) as nat == a + (b - 1) as nat);
        assert(pow2(a) * pow2(b) == 2 * (pow2(a) * pow2((b - 1) as nat))) by (nonlinear_arith)
            requires
                pow2(b) == 2 * pow2((b - 1) as nat),
        ;
    } else {
        assert(pow2(0) == 1);
        assert(a + b == a);
    }
}

pub proof fn lemma_pow2_63()
    ensures
        pow2(63) == 0x8000_0000_0000_0000,
        pow2(64) == 0x1_0000_0000_0000_0000,
{
    reveal_with_fuel(pow2, 65);
}

/// Half of the number of `usize` values is a power of two.
pub proof fn lemma_usize_half()
    ensures
        pow2(usize_half_exp()) == (usize::MAX as int + 1) / 2,
{
    reveal_with_fuel(pow2, 65);
}

/// The exponent of half the number of `usize` values.
pub open spec fn usize_half_exp() -> nat {
    if usize::MAX == 0xffff_ffff {
        31
    } else {
        63
    }
}

/// A power of two that fits in `usize` has an exponent below 64.
pub proof fn lemma_pow2_fits(k: nat)
    requires
        pow2(k) <= usize::MAX,
    ensures
        k < 64,
{
    lemma_pow2_63();
    if k >= 64 {
        lemma_pow2_mono(64, k);
    }
}

/// Whether `x` is a power of two: halve it while it is even and see whether
/// one is left.
pub fn is_pow2(x: usize) -> (r: bool)
    ensures
        r == is_power_of_two(x as int),
{
    if x == 0 {
        proof {
            assert forall|k: nat| pow2(k) != 0 by {
                lemma_pow2_pos(k);
            }
        }
        return false;
    }
    let mut q: usize = x;
    while q % 2 == 0
        invariant
            q >= 1,
            is_power_of_two(x as int) == is_power_of_two(q as int),
        decreases q,
    {
        proof {
            if is_power_of_two(q as int) {
                let j = choose|j: nat| pow2(j) == q;
                assert(j > 0);
                assert(pow2((j - 1) as nat) == q / 2);
            }
            if is_power_of_two((q / 2) as int) {
                let j = choose|j: nat| pow2(j) == q / 2;
                assert(pow2(j + 1) == q);
            }
        }
        q = q / 2;
    }
    proof {
        if is_power_of_two(q as int) {
            let j = choose|j: nat| pow2(j) == q;
            if j > 0 {
                assert(q == 2 * pow2((j - 1) as nat));
            }
        }
        if q == 1 {
            assert(pow2(0) == 1);
        }
    }
    q == 1
}

/// At most one power of two is the least one at least `m`.
pub proof fn lemma_next_pow2_unique(m: int, v1: int, v2: int)
    requires
        is_next_pow2(m, v1),
        is_next_pow2(m, v2),
    ensures
        v1 == v2,
{
    let k1 = choose|k: nat| #[trigger] pow2(k) == v1 && v1 >= m && (k == 0 || pow2((k - 1) as nat) < m);
    let k2 = choose|k: nat| #[trigger] pow2(k) == v2 && v2 >= m && (k == 0 || pow2((k - 1) as nat) < m);
    if k1 < k2 {
        lemma_pow2_mono(k1, (k2 - 1) as nat);
    } else if k2 < k1 {
        lemma_pow2_mono(k2, (k1 - 1) as nat);
    }
}

/// A power of two is the least power of two at least itself.
pub proof fn lemma_next_pow2_of_pow2(x: int)
    requires
        is_power_of_two(x),
    ensures
        is_next_pow2(x, x),
{
    let k = choose|k: nat| pow2(k) == x;
    if k > 0 {
        lemma_pow2_strict((k - 1) as nat, k);
    }
    assert(pow2(k) == x && x >= x && (k == 0 || pow2((k - 1) as nat) < x));
}

/// The least power of two that is at least `x`: a power of two, no smaller
/// than `x`, and `x` itself when `x` is a power of two.
pub fn next_pow2(x: usize) -> (r: usize)
    requires
        1 <= x <= (usize::MAX as int + 1) / 2,
    ensures
        is_next_pow2(x as int, r as int),
        is_power_of_two(r as int),
        r >= x,
        is_power_of_two(x as int) ==> r == x,
{
    let mut p: usize = 1;
    let ghost mut k: nat = 0;
    while p < x
        invariant
            1 <= x <= (usize::MAX as int + 1) / 2,
            pow2(k) == p,
            p >= 1,
            k == 0 || pow2((k - 1) as nat) < x,
        decreases usize::MAX - p,
    {
        proof {
            let h = usize_half_exp();
            lemma_usize_half();
            if k >= h {
                lemma_pow2_mono(h, k);
            }
            lemma_pow2_mono(k + 1, h);
        }
        p = p * 2;
        proof {
            k = k + 1;
        }
    }
    proof {
        assert(pow2(k) == p);
        if is_power_of_two(x as int) {
            lemma_next_pow2_of_pow2(x as int);
            lemma_next_pow2_unique(x as int, x as int, p as int);
        }
    }
    p
}

/// The exponent of a power of two.
pub fn log2(p: usize) -> (r: usize)
    requires
        is_power_of_two(p as int),
    ensures
        pow2(r as nat) == p,
        r < 64,
{
    let ghost e: nat = choose|e: nat| pow2(e) == p;
    proof {
        lemma_pow2_fits(e);
    }
    let mut q: usize = p;
    let mut k: usize = 0;
    let ghost mut j: nat = e;
    while q > 1
        invariant
            pow2(j) == q,
            k + j == e,
            e < 64,
            pow2(e) == p,
        decreases q,
    {
        proof {
            if j == 0 {
                assert(q == 1);
            }
            j = (j - 1) as nat;
        }
        q = q / 2;
        k = k + 1;
    }
    proof {
        if j > 0 {
            lemma_pow2_pos((j - 1) as nat);
        }
    }
    k
}

} // verus!
