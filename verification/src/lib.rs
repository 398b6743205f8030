//! Block-based image compression core: color transforms, chroma subsampling,
//! quantization, zig-zag coefficient ordering, adaptive quad-tree
//! partitioning, and a checksummed, compressed container format.
use vstd::prelude::*;

pub mod bytes;
pub mod color;
pub mod jpeg;
pub mod mathx;
pub mod my_image;
pub mod outside;
pub mod quad_mind;
pub mod quad_tree;
pub mod quant;
pub mod zigzag;

verus! {

/// Largest accepted image width or height.
pub const MAX_DIM: usize = 0x4000;

/// Largest padded plane width or height.
pub const MAX_PAD: usize = 0x8000;

/// Row-major index of a pixel in a plane of row length `mw`.
pub open spec fn pidx(mw: int, x: int, y: int) -> int {
    y * mw + x
}

/// A row-major index decomposes back into its coordinates.
pub proof fn lemma_pidx(mw: int, x: int, y: int)
    requires
        0 <= x < mw,
        0 <= y,
    ensures
        pidx(mw, x, y) % mw == x,
        pidx(mw, x, y) / mw == y,
{
    vstd::arithmetic::div_mod::lemma_fundamental_div_mod_converse(y * mw + x, mw, y, x);
}

/// A pixel inside an `mw` by `mh` plane has its index inside the buffer.
pub proof fn lemma_pidx_bound(mw: int, mh: int, x: int, y: int)
    requires
        0 <= x < mw,
        0 <= y < mh,
    ensures
        0 <= pidx(mw, x, y) < mw * mh,
        pidx(mw, x, y) + 1 <= mw * mh,
{
    vstd::arithmetic::mul::lemma_mul_inequality(y + 1, mh, mw);
    assert((y + 1) * mw == y * mw + mw) by {
        vstd::arithmetic::mul::lemma_mul_is_distributive_add_other_way(mw, y, 1);
    }
}

/// No multiple of `b` below `round_up(v, b)` reaches `v`.
pub proof fn lemma_round_up_least(v: nat, b: nat, m: nat)
    requires
        b > 0,
        m % b == 0,
        m >= v,
    ensures
        round_up(v, b) <= m,
{
    lemma_round_up(v, b);
    let r = round_up(v, b);
    if r > m {
        assert(r % b == 0);
        assert(r < v + b);
        vstd::arithmetic::div_mod::lemma_fundamental_div_mod(r as int, b as int);
        vstd::arithmetic::div_mod::lemma_fundamental_div_mod(m as int, b as int);
        let qr = r as int / b as int;
        let qm = m as int / b as int;
        assert(r == b * qr && m == b * qm);
        assert(qr > qm) by {
            if qr <= qm {
                vstd::arithmetic::mul::lemma_mul_inequality(qr, qm, b as int);
                vstd::arithmetic::mul::lemma_mul_is_commutative(qr, b as int);
                vstd::arithmetic::mul::lemma_mul_is_commutative(qm, b as int);
            }
        }
        vstd::arithmetic::mul::lemma_mul_inequality(qm + 1, qr, b as int);
        vstd::arithmetic::mul::lemma_mul_is_distributive_add_other_way(b as int, qm, 1);
        vstd::arithmetic::mul::lemma_mul_is_commutative(qm + 1, b as int);
        vstd::arithmetic::mul::lemma_mul_is_commutative(qr, b as int);
        vstd::arithmetic::mul::lemma_mul_is_commutative(qm, b as int);
        assert(r as int >= m as int + b);
        assert(false);
    }
}

/// Row-major indices respect the processing order of the grid.
pub proof fn lemma_pidx_order(mw: int, x1: int, y1: int, x2: int, y2: int)
    requires
        0 <= x1 < mw,
        0 <= x2,
        0 <= y1,
        0 <= y2,
        y1 < y2 || (y1 == y2 && x1 < x2),
    ensures
        pidx(mw, x1, y1) < pidx(mw, x2, y2),
{
    if y1 < y2 {
        vstd::arithmetic::mul::lemma_mul_inequality(y1 + 1, y2, mw);
        assert((y1 + 1) * mw == y1 * mw + mw) by {
            vstd::arithmetic::mul::lemma_mul_is_distributive_add_other_way(mw, y1, 1);
        }
    }
}

/// A vector of `n` zero bytes.
pub fn zero_bytes(n: usize) -> (v: Vec<u8>)
    ensures
        v@.len() == n,
        forall|i: int| 0 <= i < n ==> v@[i] == 0u8,
{
    let mut v: Vec<u8> = Vec::new();
    let mut i: usize = 0;
    while i < n
        invariant
            i <= n,
            v@.len() == i,
            forall|j: int| 0 <= j < i ==> v@[j] == 0u8,
        decreases n - i,
    {
        v.push(0u8);
        i = i + 1;
    }
    v
}

/// A vector of `n` zero 32-bit integers.
pub fn zero_i32s(n: usize) -> (v: Vec<i32>)
    ensures
        v@.len() == n,
        forall|i: int| 0 <= i < n ==> v@[i] == 0i32,
{
    let mut v: Vec<i32> = Vec::new();
    let mut i: usize = 0;
    while i < n
        invariant
            i <= n,
            v@.len() == i,
            forall|j: int| 0 <= j < i ==> v@[j] == 0i32,
        decreases n - i,
    {
        v.push(0i32);
        i = i + 1;
    }
    v
}

/// The smallest multiple of `b` that is at least `v`.
pub open spec fn round_up(v: nat, b: nat) -> nat
    recommends
        b > 0,
{
    ((v + b - 1) / (b as int)) as nat * b
}

/// `round_up(v, b)` is the least multiple of `b` not below `v`.
pub proof fn lemma_round_up(v: nat, b: nat)
    requires
        b > 0,
    ensures
        round_up(v, b) % b == 0,
        round_up(v, b) >= v,
        round_up(v, b) < v + b,
{
    let q = (v + b - 1) / (b as int);
    assert((v + b - 1) == q * b + ((v + b - 1) % (b as int))) by {
        vstd::arithmetic::div_mod::lemma_fundamental_div_mod(v + b - 1, b as int);
    }
    assert(0 <= (v + b - 1) % (b as int) < b) by {
        vstd::arithmetic::div_mod::lemma_mod_bound(v + b - 1, b as int);
    }
    assert((q * b) % (b as int) == 0) by {
        vstd::arithmetic::div_mod::lemma_mod_multiples_basic(q, b as int);
    }
}

} // verus!
