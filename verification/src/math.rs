//! Rounding and powers of two.
use vstd::arithmetic::power2::pow2;
use vstd::prelude::*;

verus! {

/// `a` divided by `b`, rounded up.
pub open spec fn ceil_div(a: int, b: int) -> int {
    a / b + if a % b == 0 {
        0int
    } else {
        1
    }
}

/// `a` rounded up to a multiple of `b`.
pub open spec fn align_up(a: int, b: int) -> int {
    ceil_div(a, b) * b
}

/// The smaller of two numbers.
pub open spec fn least(a: int, b: int) -> int {
    if a < b {
        a
    } else {
        b
    }
}

/// The larger of two numbers.
pub open spec fn greatest(a: int, b: int) -> int {
    if a < b {
        b
    } else {
        a
    }
}

/// Rounding up covers the number and exceeds it by less than a unit.
pub proof fn ceil_div_covers(a: int, b: int)
    requires
        0 <= a,
        0 < b,
    ensures
        0 <= ceil_div(a, b) <= a,
        a <= align_up(a, b) < a + b,
        align_up(a, b) % b == 0,
        a % b == 0 ==> align_up(a, b) == a,
{
    vstd::arithmetic::div_mod::lemma_fundamental_div_mod(a, b);
    let q = a / b;
    assert(0 <= q <= a) by (nonlinear_arith)
        requires
            a == b * q + a % b,
            0 <= a % b < b,
            0 <= a,
            0 < b,
    ;
    assert(q * b == b * q) by (nonlinear_arith);
    assert((q + 1) * b == b * q + b) by (nonlinear_arith);
    vstd::arithmetic::div_mod::lemma_mod_multiples_basic(ceil_div(a, b), b);
    if a % b != 0 {
        assert(q < a) by (nonlinear_arith)
            requires
                a == b * q + a % b,
                0 < a % b < b,
                0 <= q,
                0 < b,
        ;
    }
}

/// `a` divided by `b`, rounded up.
pub fn div_up(a: u64, b: u64) -> (r: u64)
    requires
        b > 0,
    ensures
        r == ceil_div(a as int, b as int),
{
    proof {
        ceil_div_covers(a as int, b as int);
    }
    if a % b == 0 {
        a / b
    } else {
        a / b + 1
    }
}

/// Two to the power `n`.
pub fn two_to(n: u32) -> (r: u64)
    requires
        n < 64,
    ensures
        r == pow2(n as nat),
{
    let mut r: u64 = 1;
    let mut i: u32 = 0;
    proof {
        vstd::arithmetic::power2::lemma2_to64();
    }
    while i < n
        invariant
            i <= n < 64,
            r == pow2(i as nat),
        decreases n - i,
    {
        proof {
            vstd::arithmetic::power2::lemma_pow2_unfold((i + 1) as nat);
            if i + 1 < 63 {
                vstd::arithmetic::power2::lemma_pow2_strictly_increases((i + 1) as nat, 63);
            }
            vstd::arithmetic::power2::lemma2_to64_rest();
        }
        r = r * 2;
        i += 1;
    }
    r
}

} // verus!
