//! Integer square roots and power-of-two sizes, the arithmetic behind the
//! quad-tree error metric and its block geometry.
use vstd::prelude::*;

verus! {

/// A power of two that fits the supported image sizes.
pub open spec fn is_pow2(n: int) -> bool {
    exists|e: nat| e <= 63 && n == vstd::arithmetic::power2::pow2(e)
}

/// The floor of the square root of a non-negative integer.
pub open spec fn sqrt_floor(n: int) -> int {
    choose|r: int| 0 <= r && #[trigger] (r * r) <= n < (r + 1) * (r + 1)
}

/// Every non-negative integer has an integer square root.
pub proof fn lemma_sqrt_floor_exists(n: int)
    requires
        n >= 0,
    ensures
        0 <= sqrt_floor(n),
        sqrt_floor(n) * sqrt_floor(n) <= n,
        n < (sqrt_floor(n) + 1) * (sqrt_floor(n) + 1),
    decreases n,
{
    if n == 0 {
        assert(exists|r: int| 0 <= r && #[trigger] (r * r) <= n < (r + 1) * (r + 1)) by {
            assert(0int * 0int == 0) by (nonlinear_arith);
            assert((0int + 1) * (0int + 1) == 1) by (nonlinear_arith);
        }
    } else {
        lemma_sqrt_floor_exists(n - 1);
        let r = choose|r: int| 0 <= r && #[trigger] (r * r) <= n - 1 < (r + 1) * (r + 1);
        if (r + 1) * (r + 1) <= n {
            assert((r + 1) * (r + 1) == n);
            assert((r + 2) * (r + 2) > n) by (nonlinear_arith)
                requires
                    r >= 0,
                    (r + 1) * (r + 1) == n,
            {}
            assert(0 <= r + 1 && (r + 1) * (r + 1) <= n < (r + 2) * (r + 2));
        } else {
            assert(0 <= r && r * r <= n < (r + 1) * (r + 1));
        }
    }
}

/// The integer square root is pinned by its two bounding squares.
pub proof fn lemma_sqrt_floor_unique(n: int, r: int)
    requires
        0 <= r,
        r * r <= n,
        n < (r + 1) * (r + 1),
    ensures
        sqrt_floor(n) == r,
{
    lemma_sqrt_floor_exists(n);
    let s = sqrt_floor(n);
    if s < r {
        vstd::arithmetic::mul::lemma_mul_inequality(s + 1, r, s + 1);
        vstd::arithmetic::mul::lemma_mul_inequality(s + 1, r, r);
    }
    if s > r {
        vstd::arithmetic::mul::lemma_mul_inequality(r + 1, s, r + 1);
        vstd::arithmetic::mul::lemma_mul_inequality(r + 1, s, s);
    }
}

/// Compute the floor of the square root by binary search.
pub fn isqrt_u64(n: u64) -> (r: u64)
    ensures
        r as int == sqrt_floor(n as int),
        r * r <= n,
{
    let mut lo: u64 = 0;
    let mut hi: u64 = 0x1_0000_0000;
    proof {
        assert((0x1_0000_0000 as int) * (0x1_0000_0000 as int) > n as int);
    }
    while hi - lo > 1
        invariant
            lo < hi <= 0x1_0000_0000,
            (lo as int) * (lo as int) <= n as int,
            (n as int) < (hi as int) * (hi as int),
        decreases hi - lo,
    {
        let mid = lo + (hi - lo) / 2;
        proof {
            vstd::arithmetic::mul::lemma_mul_upper_bound(
                mid as int,
                0x1_0000_0000,
                mid as int,
                0x1_0000_0000,
            );
        }
        if (mid as u128) * (mid as u128) <= n as u128 {
            lo = mid;
        } else {
            hi = mid;
        }
    }
    proof {
        lemma_sqrt_floor_unique(n as int, lo as int);
        vstd::arithmetic::mul::lemma_mul_upper_bound(lo as int, 0xffff_ffff, lo as int, 0xffff_ffff);
    }
    lo
}

/// The smallest power of two not below `v`, for sizes up to the largest
/// accepted image dimension.
pub fn next_power_of_two_bounded(v: usize) -> (r: usize)
    requires
        1 <= v <= crate::MAX_DIM,
    ensures
        is_pow2(r as int),
        v <= r,
        r < 2 * v,
        r <= crate::MAX_DIM,
{
    let mut r: usize = 1;
    let ghost mut e: nat = 0;
    proof {
        vstd::arithmetic::power2::lemma2_to64();
    }
    while r < v
        invariant
            1 <= v <= crate::MAX_DIM,
            r >= 1,
            e <= 14,
            r as int == vstd::arithmetic::power2::pow2(e),
            r <= crate::MAX_DIM,
            r < 2 * v,
        decreases 2 * v - r,
    {
        proof {
            vstd::arithmetic::power2::lemma2_to64();
            if e >= 14 {
                vstd::arithmetic::power2::lemma_pow2_strictly_increases(14, e + 1);
                assert(vstd::arithmetic::power2::pow2(14) == 0x4000);
            }
            assert(vstd::arithmetic::power2::pow2(e + 1) == 2 * vstd::arithmetic::power2::pow2(e))
                by {
                vstd::arithmetic::power2::lemma_pow2_unfold(e + 1);
            }
        }
        r = r * 2;
        proof {
            e = e + 1;
        }
    }
    proof {
        assert(e <= 63 && r as int == vstd::arithmetic::power2::pow2(e));
    }
    r
}

/// Powers of two double down to one: a power of two of at least two is
/// even, and its half is a power of two again.
pub proof fn lemma_pow2_halves(n: int)
    requires
        is_pow2(n),
        n >= 2,
    ensures
        n % 2 == 0,
        is_pow2(n / 2),
        n / 2 >= 1,
        n / 2 < n,
        2 * (n / 2) == n,
{
    let e = choose|e: nat| e <= 63 && n == vstd::arithmetic::power2::pow2(e);
    vstd::arithmetic::power2::lemma_pow2_pos(e);
    if e == 0 {
        assert(vstd::arithmetic::power2::pow2(0) == 1) by {
            vstd::arithmetic::power2::lemma2_to64();
        }
    } else {
        assert(vstd::arithmetic::power2::pow2(e) == 2 * vstd::arithmetic::power2::pow2(
            (e - 1) as nat,
        )) by {
            vstd::arithmetic::power2::lemma_pow2_unfold(e);
        }
        vstd::arithmetic::power2::lemma_pow2_pos((e - 1) as nat);
        assert(n / 2 == vstd::arithmetic::power2::pow2((e - 1) as nat));
        assert(is_pow2(n / 2));
    }
}

/// Between two powers of two there is at least a factor of two.
pub proof fn lemma_pow2_double_gap(m: int, s: int)
    requires
        is_pow2(m),
        is_pow2(s),
        s > m,
    ensures
        s >= 2 * m,
{
    let em = choose|e: nat| e <= 63 && m == vstd::arithmetic::power2::pow2(e);
    let es = choose|e: nat| e <= 63 && s == vstd::arithmetic::power2::pow2(e);
    if es <= em {
        if es < em {
            vstd::arithmetic::power2::lemma_pow2_strictly_increases(es, em);
        }
    }
    assert(es >= em + 1);
    if es > em + 1 {
        vstd::arithmetic::power2::lemma_pow2_strictly_increases(em + 1, es);
    }
    assert(vstd::arithmetic::power2::pow2(em + 1) == 2 * vstd::arithmetic::power2::pow2(em)) by {
        vstd::arithmetic::power2::lemma_pow2_unfold(em + 1);
    }
}

/// One is the smallest power of two.
pub proof fn lemma_pow2_pos(n: int)
    requires
        is_pow2(n),
    ensures
        n >= 1,
{
    let e = choose|e: nat| e <= 63 && n == vstd::arithmetic::power2::pow2(e);
    vstd::arithmetic::power2::lemma_pow2_pos(e);
}

} // verus!
