//! Integer helpers for the fixed-point arithmetic of the simulation:
//! a floor square root and a division that rounds toward zero.

use vstd::prelude::*;

verus! {

/// Largest radicand the executable square root accepts. Big enough for the
/// squared diagonal of the largest world (`100_000_000` thousandths on each
/// axis).
pub const MAX_RADICAND: u64 = 0xFF_FFFF_FFFF_FFFF;

/// The floor of the square root of `n`.
pub open spec fn sqrt_floor(n: nat) -> nat
    decreases n,
{
    if n == 0 {
        0
    } else {
        let r = sqrt_floor((n - 1) as nat);
        if (r + 1) * (r + 1) <= n {
            r + 1
        } else {
            r
        }
    }
}

/// `r` is the floor square root of `n`.
pub open spec fn is_sqrt_floor(n: nat, r: nat) -> bool {
    r * r <= n < (r + 1) * (r + 1)
}

pub proof fn lemma_sqrt_floor_is_sqrt(n: nat)
    ensures
        is_sqrt_floor(n, sqrt_floor(n)),
    decreases n,
{
    if n == 0 {
        assert(is_sqrt_floor(0, 0)) by (nonlinear_arith);
    } else {
        lemma_sqrt_floor_is_sqrt((n - 1) as nat);
        let r = sqrt_floor((n - 1) as nat);
        if (r + 1) * (r + 1) <= n {
            assert(n - 1 < (r + 1) * (r + 1));
            assert(n == (r + 1) * (r + 1));
            assert((r + 1) * (r + 1) < (r + 1 + 1) * (r + 1 + 1)) by (nonlinear_arith);
            assert(is_sqrt_floor(n, r + 1));
        } else {
            assert(r * r <= n - 1 <= n);
            assert(is_sqrt_floor(n, r));
        }
    }
}

pub proof fn lemma_sqrt_floor_unique(n: nat, r: nat)
    requires
        is_sqrt_floor(n, r),
    ensures
        r == sqrt_floor(n),
{
    lemma_sqrt_floor_is_sqrt(n);
    let s = sqrt_floor(n);
    if r < s {
        assert((r + 1) * (r + 1) <= s * s) by (nonlinear_arith)
            requires
                r + 1 <= s,
        ;
    }
    if s < r {
        assert((s + 1) * (s + 1) <= r * r) by (nonlinear_arith)
            requires
                s + 1 <= r,
        ;
    }
}

/// The square root is monotone.
pub proof fn lemma_sqrt_floor_monotone(a: nat, b: nat)
    requires
        a <= b,
    ensures
        sqrt_floor(a) <= sqrt_floor(b),
{
    lemma_sqrt_floor_is_sqrt(a);
    lemma_sqrt_floor_is_sqrt(b);
    let ra = sqrt_floor(a);
    let rb = sqrt_floor(b);
    if rb < ra {
        assert((rb + 1) * (rb + 1) <= ra * ra) by (nonlinear_arith)
            requires
                rb + 1 <= ra,
        ;
    }
}

/// The square root of a perfect square.
pub proof fn lemma_sqrt_floor_square(a: nat)
    ensures
        sqrt_floor(a * a) == a,
{
    assert(a * a < (a + 1) * (a + 1)) by (nonlinear_arith);
    lemma_sqrt_floor_unique(a * a, a);
}

/// Floor square root by binary search.
pub fn isqrt(n: u64) -> (r: u64)
    requires
        n <= MAX_RADICAND,
    ensures
        r == sqrt_floor(n as nat),
        r <= 0x1000_0000,
{
    if n == 0 {
        proof {
            assert(is_sqrt_floor(0, 0)) by (nonlinear_arith);
            lemma_sqrt_floor_unique(0, 0);
        }
        return 0;
    }
    let mut lo: u64 = 0;
    let mut hi: u64 = 0x1000_0000;
    proof {
        assert((0x1000_0000 as nat) * (0x1000_0000 as nat) > MAX_RADICAND) by (nonlinear_arith);
    }
    while lo + 1 < hi
        invariant
            lo < hi <= 0x1000_0000,
            (lo as nat) * (lo as nat) <= n,
            n < (hi as nat) * (hi as nat),
        decreases hi - lo,
    {
        let mid: u64 = lo + (hi - lo) / 2;
        proof {
            assert(lo < mid < hi);
            assert((mid as nat) * (mid as nat) <= (0x1000_0000 as nat) * (0x1000_0000 as nat))
                by (nonlinear_arith)
                requires
                    mid <= 0x1000_0000,
            ;
        }
        if mid * mid <= n {
            lo = mid;
        } else {
            hi = mid;
        }
    }
    proof {
        lemma_sqrt_floor_unique(n as nat, lo as nat);
    }
    lo
}

/// Division rounding toward zero, the rounding the simulation uses for both
/// its force terms and its velocity damping.
pub open spec fn tdiv(a: int, b: int) -> int
    recommends
        b >= 1,
{
    if a >= 0 {
        a / b
    } else {
        -((-a) / b)
    }
}

/// The magnitude of a quotient toward zero never exceeds the magnitude of a
/// floor quotient bound: `-(m / b) <= tdiv(a, b) <= m / b` when `|a| <= m`.
pub proof fn lemma_tdiv_bound(a: int, b: int, m: int)
    requires
        b >= 1,
        -m <= a <= m,
        0 <= m,
    ensures
        -(m / b) <= tdiv(a, b) <= m / b,
{
    if a >= 0 {
        vstd::arithmetic::div_mod::lemma_div_is_ordered(a, m, b);
        vstd::arithmetic::div_mod::lemma_div_is_ordered(0, a, b);
        assert(0int / b == 0) by (nonlinear_arith)
            requires
                b >= 1,
        ;
    } else {
        vstd::arithmetic::div_mod::lemma_div_is_ordered(-a, m, b);
        vstd::arithmetic::div_mod::lemma_div_is_ordered(0, -a, b);
        assert(0int / b == 0) by (nonlinear_arith)
            requires
                b >= 1,
        ;
    }
}

/// Executable division rounding toward zero.
pub fn div_trunc(a: i64, b: i64) -> (q: i64)
    requires
        b >= 1,
        a > i64::MIN,
    ensures
        q == tdiv(a as int, b as int),
{
    if a >= 0 {
        a / b
    } else {
        let m = -a;
        -(m / b)
    }
}

} // verus!
