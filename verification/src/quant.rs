//! Quantization: base matrices, quality scaling, and the per-coefficient
//! quantize and dequantize steps, all in fixed-point integer arithmetic with
//! quality factors carried in hundredths.
use vstd::prelude::*;

verus! {

/// Largest entry of a generated or base quantization matrix.
pub const MAX_Q_BASE: u32 = 1024;

/// Largest quality factor in hundredths: quality 1 maps to 5000.00.
pub const MAX_FACTOR_CENTI: u32 = 500000;

/// Largest scaled quantization step.
pub const MAX_Q_STEP: u32 = 0x4000000;

/// The standard luminance base matrix.
pub open spec fn q_luma_base() -> Seq<u32> {
    seq![
        16u32, 11u32, 10u32, 16u32, 24u32, 40u32, 51u32, 61u32, 12u32, 12u32, 14u32, 19u32,
        26u32, 58u32, 60u32, 55u32, 14u32, 13u32, 16u32, 24u32, 40u32, 57u32, 69u32, 56u32,
        14u32, 17u32, 22u32, 29u32, 51u32, 87u32, 80u32, 62u32, 18u32, 22u32, 37u32, 56u32,
        68u32, 109u32, 103u32, 77u32, 24u32, 35u32, 55u32, 64u32, 81u32, 104u32, 113u32, 92u32,
        49u32, 64u32, 78u32, 87u32, 103u32, 121u32, 120u32, 101u32, 72u32, 92u32, 95u32, 98u32,
        112u32, 100u32, 103u32, 99u32,
    ]
}

/// The standard chrominance base matrix.
pub open spec fn q_chroma_base() -> Seq<u32> {
    seq![
        17u32, 18u32, 24u32, 47u32, 99u32, 99u32, 99u32, 99u32, 18u32, 21u32, 26u32, 66u32,
        99u32, 99u32, 99u32, 99u32, 24u32, 26u32, 56u32, 99u32, 99u32, 99u32, 99u32, 99u32,
        47u32, 66u32, 99u32, 99u32, 99u32, 99u32, 99u32, 99u32, 99u32, 99u32, 99u32, 99u32,
        99u32, 99u32, 99u32, 99u32, 99u32, 99u32, 99u32, 99u32, 99u32, 99u32, 99u32, 99u32,
        99u32, 99u32, 99u32, 99u32, 99u32, 99u32, 99u32, 99u32, 99u32, 99u32, 99u32, 99u32,
        99u32, 99u32, 99u32, 99u32,
    ]
}

/// The standard luminance base matrix, as bytes of a vector.
#[verifier::rlimit(60)]
pub fn q_matrix_luma_const() -> (v: Vec<u32>)
    ensures
        v@ == q_luma_base(),
        v@.len() == 64,
{
    let mut v: Vec<u32> = Vec::new();
    v.push(16u32);
    v.push(11u32);
    v.push(10u32);
    v.push(16u32);
    v.push(24u32);
    v.push(40u32);
    v.push(51u32);
    v.push(61u32);
    v.push(12u32);
    v.push(12u32);
    v.push(14u32);
    v.push(19u32);
    v.push(26u32);
    v.push(58u32);
    v.push(60u32);
    v.push(55u32);
    v.push(14u32);
    v.push(13u32);
    v.push(16u32);
    v.push(24u32);
    v.push(40u32);
    v.push(57u32);
    v.push(69u32);
    v.push(56u32);
    v.push(14u32);
    v.push(17u32);
    v.push(22u32);
    v.push(29u32);
    v.push(51u32);
    v.push(87u32);
    v.push(80u32);
    v.push(62u32);
    v.push(18u32);
    v.push(22u32);
    v.push(37u32);
    v.push(56u32);
    v.push(68u32);
    v.push(109u32);
    v.push(103u32);
    v.push(77u32);
    v.push(24u32);
    v.push(35u32);
    v.push(55u32);
    v.push(64u32);
    v.push(81u32);
    v.push(104u32);
    v.push(113u32);
    v.push(92u32);
    v.push(49u32);
    v.push(64u32);
    v.push(78u32);
    v.push(87u32);
    v.push(103u32);
    v.push(121u32);
    v.push(120u32);
    v.push(101u32);
    v.push(72u32);
    v.push(92u32);
    v.push(95u32);
    v.push(98u32);
    v.push(112u32);
    v.push(100u32);
    v.push(103u32);
    v.push(99u32);
    proof {
        assert(v@ =~= q_luma_base());
    }
    v
}

/// The standard chrominance base matrix, as bytes of a vector.
#[verifier::rlimit(60)]
pub fn q_matrix_chroma_const() -> (v: Vec<u32>)
    ensures
        v@ == q_chroma_base(),
        v@.len() == 64,
{
    let mut v: Vec<u32> = Vec::new();
    v.push(17u32);
    v.push(18u32);
    v.push(24u32);
    v.push(47u32);
    v.push(99u32);
    v.push(99u32);
    v.push(99u32);
    v.push(99u32);
    v.push(18u32);
    v.push(21u32);
    v.push(26u32);
    v.push(66u32);
    v.push(99u32);
    v.push(99u32);
    v.push(99u32);
    v.push(99u32);
    v.push(24u32);
    v.push(26u32);
    v.push(56u32);
    v.push(99u32);
    v.push(99u32);
    v.push(99u32);
    v.push(99u32);
    v.push(99u32);
    v.push(47u32);
    v.push(66u32);
    v.push(99u32);
    v.push(99u32);
    v.push(99u32);
    v.push(99u32);
    v.push(99u32);
    v.push(99u32);
    v.push(99u32);
    v.push(99u32);
    v.push(99u32);
    v.push(99u32);
    v.push(99u32);
    v.push(99u32);
    v.push(99u32);
    v.push(99u32);
    v.push(99u32);
    v.push(99u32);
    v.push(99u32);
    v.push(99u32);
    v.push(99u32);
    v.push(99u32);
    v.push(99u32);
    v.push(99u32);
    v.push(99u32);
    v.push(99u32);
    v.push(99u32);
    v.push(99u32);
    v.push(99u32);
    v.push(99u32);
    v.push(99u32);
    v.push(99u32);
    v.push(99u32);
    v.push(99u32);
    v.push(99u32);
    v.push(99u32);
    v.push(99u32);
    v.push(99u32);
    v.push(99u32);
    v.push(99u32);
    proof {
        assert(v@ =~= q_chroma_base());
    }
    v
}

/// A usable quantization matrix for an `n` by `n` block: every step is
/// positive and small enough for the fixed-point arithmetic below.
pub open spec fn q_wf(q: Seq<u32>, n: int) -> bool {
    &&& q.len() == n * n
    &&& forall|k: int| 0 <= k < n * n ==> 1 <= (#[trigger] q[k]) <= MAX_Q_STEP
}

/// Entry `(y, x)` of the unscaled quantization matrix: the arithmetic ramp
/// `x + y + 1` in generated mode, the 8 by 8 base matrix tiled otherwise.
pub open spec fn q_gen_at(base: Seq<u32>, use_gen_qtable: bool, y: int, x: int) -> int {
    if use_gen_qtable {
        x + y + 1
    } else {
        base[(y % 8) * 8 + x % 8] as int
    }
}

/// Build the quantization matrix for a block size, either generated or
/// tiled from an 8 by 8 base matrix.
pub fn generate_q_matrix(q_matrix_base: &Vec<u32>, block_size: usize, use_gen_qtable: bool) -> (q:
    Vec<u32>)
    requires
        1 <= block_size <= crate::zigzag::MAX_BLOCK,
        q_matrix_base@.len() == 64,
        forall|k: int| 0 <= k < 64 ==> 1 <= (#[trigger] q_matrix_base@[k]) <= 128,
    ensures
        q@.len() == block_size * block_size,
        q_wf(q@, block_size as int),
        forall|y: int, x: int|
            0 <= y < block_size && 0 <= x < block_size ==> (#[trigger] q@[y * block_size + x])
                as int == q_gen_at(q_matrix_base@, use_gen_qtable, y, x),
{
    let n = block_size;
    proof {
        vstd::arithmetic::mul::lemma_mul_upper_bound(
            n as int,
            crate::zigzag::MAX_BLOCK as int,
            n as int,
            crate::zigzag::MAX_BLOCK as int,
        );
    }
    let mut q: Vec<u32> = Vec::new();
    let mut y: usize = 0;
    while y < n
        invariant
            1 <= n <= crate::zigzag::MAX_BLOCK,
            y <= n,
            q_matrix_base@.len() == 64,
            forall|k: int| 0 <= k < 64 ==> 1 <= (#[trigger] q_matrix_base@[k]) <= 128,
            q@.len() == y * n,
            forall|yy: int, xx: int|
                0 <= yy < y && 0 <= xx < n ==> 1 <= (#[trigger] q@[yy * n + xx]) <= MAX_Q_BASE,
            forall|yy: int, xx: int|
                0 <= yy < y && 0 <= xx < n ==> (#[trigger] q@[yy * n + xx]) as int == q_gen_at(
                    q_matrix_base@,
                    use_gen_qtable,
                    yy,
                    xx,
                ),
        decreases n - y,
    {
        let mut x: usize = 0;
        while x < n
            invariant
                1 <= n <= crate::zigzag::MAX_BLOCK,
                y < n,
                x <= n,
                q_matrix_base@.len() == 64,
                forall|k: int| 0 <= k < 64 ==> 1 <= (#[trigger] q_matrix_base@[k]) <= 128,
                q@.len() == y * n + x,
                forall|yy: int, xx: int|
                    0 <= yy < n && 0 <= xx < n && (yy < y || (yy == y && xx < x)) ==> 1 <= (
                    #[trigger] q@[yy * n + xx]) <= MAX_Q_BASE,
                forall|yy: int, xx: int|
                    0 <= yy < n && 0 <= xx < n && (yy < y || (yy == y && xx < x)) ==> (
                    #[trigger] q@[yy * n + xx]) as int == q_gen_at(
                        q_matrix_base@,
                        use_gen_qtable,
                        yy,
                        xx,
                    ),
            decreases n - x,
        {
            proof {
                crate::lemma_pidx_bound(n as int, n as int, x as int, y as int);
                vstd::arithmetic::div_mod::lemma_mod_bound(y as int, 8);
                vstd::arithmetic::div_mod::lemma_mod_bound(x as int, 8);
                crate::lemma_pidx_bound(8, 8, (x % 8) as int, (y % 8) as int);
            }
            let v: u32 = if use_gen_qtable {
                (x + y + 1) as u32
            } else {
                q_matrix_base[(y % 8) * 8 + (x % 8)]
            };
            q.push(v);
            x = x + 1;
            proof {
                assert forall|yy: int, xx: int|
                    0 <= yy < n && 0 <= xx < n && (yy < y || (yy == y && xx < x)) implies (
                #[trigger] q@[yy * n + xx]) as int == q_gen_at(
                    q_matrix_base@,
                    use_gen_qtable,
                    yy,
                    xx,
                ) && 1 <= q@[yy * n + xx] <= MAX_Q_BASE by {
                    crate::lemma_pidx(n as int, xx, yy);
                    crate::lemma_pidx(n as int, x as int - 1, y as int);
                    crate::lemma_pidx_bound(n as int, n as int, xx, yy);
                    vstd::arithmetic::div_mod::lemma_mod_bound(yy, 8);
                    vstd::arithmetic::div_mod::lemma_mod_bound(xx, 8);
                    crate::lemma_pidx_bound(8, 8, xx % 8, yy % 8);
                    if !(yy == y && xx == x - 1) {
                        crate::lemma_pidx_order(n as int, xx, yy, x as int - 1, y as int);
                    }
                }
            }
        }
        proof {
            assert(y * n + n == (y + 1) * n) by {
                vstd::arithmetic::mul::lemma_mul_is_distributive_add_other_way(
                    n as int,
                    y as int,
                    1,
                );
            }
        }
        y = y + 1;
    }
    proof {
        assert forall|k: int| 0 <= k < n * n implies 1 <= (#[trigger] q@[k]) <= MAX_Q_STEP by {
            vstd::arithmetic::div_mod::lemma_fundamental_div_mod(k, n as int);
            vstd::arithmetic::div_mod::lemma_mod_bound(k, n as int);
            let yy = k / (n as int);
            let xx = k % (n as int);
            if yy >= n {
                vstd::arithmetic::mul::lemma_mul_inequality(n as int, yy, n as int);
            }
            if yy < 0 {
                vstd::arithmetic::mul::lemma_mul_inequality(yy, -1, n as int);
            }
            assert((yy * n) == (n as int) * yy) by {
                vstd::arithmetic::mul::lemma_mul_is_commutative(yy, n as int);
            }
            assert(1 <= q@[yy * n + xx] <= MAX_Q_BASE);
        }
    }
    q
}

/// Quality factor in hundredths. In generated-table mode the two JPEG
/// regimes apply: `200 - 2 Q` above the midpoint and `5000 / Q` below; in
/// base-table mode the linear map `25 (101 - Q) / 100`.
pub open spec fn quality_factor_centi(use_gen_qtable: bool, quality: int) -> int {
    if use_gen_qtable {
        if quality >= 50 {
            20000 - 200 * quality
        } else {
            500000int / quality
        }
    } else {
        2525 - 25 * quality
    }
}

/// Compute the quality factor for a quality setting between 1 and 100.
pub fn quality_factor(use_gen_qtable: bool, quality: u32) -> (f: u32)
    requires
        1 <= quality <= 100,
    ensures
        f as int == quality_factor_centi(use_gen_qtable, quality as int),
        f <= MAX_FACTOR_CENTI,
{
    if use_gen_qtable {
        if quality >= 50 {
            20000u32 - 200 * quality
        } else {
            500000u32 / quality
        }
    } else {
        2525u32 - 25 * quality
    }
}

/// A quantization step scaled by a quality factor `f` in hundredths:
/// `max(1, (q f + 50) / 100)`, here with both scalings merged into one
/// division by ten thousand.
pub open spec fn scaled_q(q: int, factor_centi: int) -> int {
    let s = (q * factor_centi + 5000) / 10000;
    if s < 1 {
        1
    } else {
        s
    }
}

/// Scale a quantization matrix by a quality factor, flooring each step at
/// one.
pub fn apply_q_matrix_factor(q_matrix: &mut Vec<u32>, block_size: usize, factor_centi: u32)
    requires
        1 <= block_size <= crate::zigzag::MAX_BLOCK,
        old(q_matrix)@.len() == block_size * block_size,
        factor_centi <= MAX_FACTOR_CENTI,
        forall|k: int|
            0 <= k < block_size * block_size ==> 1 <= (#[trigger] old(q_matrix)@[k])
                <= MAX_Q_BASE,
    ensures
        final(q_matrix)@.len() == block_size * block_size,
        q_wf(final(q_matrix)@, block_size as int),
        forall|k: int|
            0 <= k < block_size * block_size ==> (#[trigger] final(q_matrix)@[k]) as int
                == scaled_q(old(q_matrix)@[k] as int, factor_centi as int),
{
    let n = block_size;
    proof {
        vstd::arithmetic::mul::lemma_mul_upper_bound(
            n as int,
            crate::zigzag::MAX_BLOCK as int,
            n as int,
            crate::zigzag::MAX_BLOCK as int,
        );
    }
    let nn = n * n;
    let mut k: usize = 0;
    while k < nn
        invariant
            nn == n * n,
            k <= nn,
            q_matrix@.len() == nn,
            factor_centi <= MAX_FACTOR_CENTI,
            forall|m: int| k <= m < nn ==> 1 <= (#[trigger] q_matrix@[m]) <= MAX_Q_BASE,
            forall|m: int|
                0 <= m < k ==> (#[trigger] q_matrix@[m]) as int == scaled_q(
                    old(q_matrix)@[m] as int,
                    factor_centi as int,
                ),
            forall|m: int| 0 <= m < k ==> 1 <= (#[trigger] q_matrix@[m]) <= MAX_Q_STEP,
            forall|m: int| k <= m < nn ==> q_matrix@[m] == old(q_matrix)@[m],
        decreases nn - k,
    {
        let v = q_matrix[k] as u64;
        proof {
            vstd::arithmetic::mul::lemma_mul_upper_bound(
                v as int,
                MAX_Q_BASE as int,
                factor_centi as int,
                MAX_FACTOR_CENTI as int,
            );
            vstd::arithmetic::mul::lemma_mul_nonnegative(v as int, factor_centi as int);
            vstd::arithmetic::div_mod::lemma_div_is_ordered(
                v as int * factor_centi as int + 5000,
                MAX_Q_BASE as int * MAX_FACTOR_CENTI as int + 5000,
                10000,
            );
            vstd::arithmetic::div_mod::lemma_div_basics_4(
                v as int * factor_centi as int + 5000,
                10000,
            );
        }
        let s = (v * (factor_centi as u64) + 5000) / 10000;
        let w: u32 = if s < 1 {
            1
        } else {
            s as u32
        };
        q_matrix[k] = w;
        k = k + 1;
    }
}

/// Division rounding half away from zero, as a float division followed by
/// `round` behaves on halves.
pub open spec fn rdiv(c: int, q: int) -> int {
    if c >= 0 {
        (c + q / 2) / q
    } else {
        -((-c + q / 2) / q)
    }
}

/// Dequantized coefficient: the product, saturated to the 32-bit range.
pub open spec fn dequant_val(c: int, q: int) -> int {
    let p = c * q;
    if p > 0x7fffffff {
        0x7fffffff
    } else if p < -0x80000000 {
        -0x80000000
    } else {
        p
    }
}

/// Quantizing and dequantizing with a step `q` moves a value by at most
/// half a step: `|x - q * round(x / q)| <= q / 2`.
pub proof fn lemma_quantize_round_trip(x: int, q: int)
    requires
        q >= 1,
    ensures
        2 * (x - q * rdiv(x, q)) <= q,
        -q <= 2 * (x - q * rdiv(x, q)),
{
    let s = q / 2;
    vstd::arithmetic::div_mod::lemma_fundamental_div_mod(q, 2);
    vstd::arithmetic::div_mod::lemma_mod_bound(q, 2);
    if x >= 0 {
        let d = (x + s) / q;
        let r = (x + s) % q;
        vstd::arithmetic::div_mod::lemma_fundamental_div_mod(x + s, q);
        vstd::arithmetic::div_mod::lemma_mod_bound(x + s, q);
        assert(x - q * d == r - s);
    } else {
        let d = (-x + s) / q;
        let r = (-x + s) % q;
        vstd::arithmetic::div_mod::lemma_fundamental_div_mod(-x + s, q);
        vstd::arithmetic::div_mod::lemma_mod_bound(-x + s, q);
        assert(-x - q * d == r - s);
        assert(q * -d == -(q * d)) by {
            vstd::arithmetic::mul::lemma_mul_is_distributive_sub(q, 0, d);
        }
    }
}

/// The quality ramped across the image for the compression-rate view, in
/// hundredths: it runs from `quality_start` at the left edge toward 100 at
/// the right.
pub open spec fn ramp_centi(quality_start: int, mwidth: int, col: int) -> int {
    quality_start * 100 + (col * ((100 - quality_start) * 100)) / mwidth
}

/// The quality factor of a column under the ramp, in hundredths, through
/// the same two regimes as the plain factor.
pub open spec fn ramp_factor_centi(quality_start: int, mwidth: int, col: int) -> int {
    let r = ramp_centi(quality_start, mwidth, col);
    if r >= 5000 {
        20000 - 2 * r
    } else {
        50000000int / r
    }
}

/// The quantization step used for a column in compression-rate mode:
/// `max(1, q * factor / 4)`, with the factor carried in hundredths.
pub open spec fn col_step(q: int, quality_start: int, mwidth: int, col: int) -> int {
    let s = (q * ramp_factor_centi(quality_start, mwidth, col)) / 400;
    if s < 1 {
        1
    } else {
        s
    }
}

/// Compute the ramped quantization step for one column.
pub fn column_step(q: u32, quality_start: u32, mwidth: usize, col: usize) -> (r: u32)
    requires
        1 <= quality_start <= 100,
        1 <= mwidth <= crate::MAX_PAD,
        col < mwidth,
        1 <= q <= MAX_Q_BASE,
    ensures
        r as int == col_step(q as int, quality_start as int, mwidth as int, col as int),
        1 <= r <= MAX_Q_STEP,
{
    let qs = quality_start as u64;
    let colw = col as u64;
    let mw = mwidth as u64;
    proof {
        vstd::arithmetic::mul::lemma_mul_upper_bound(col as int, crate::MAX_PAD as int, (100
            - quality_start as int) * 100, 9900);
        vstd::arithmetic::mul::lemma_mul_nonnegative(col as int, (100 - quality_start as int)
            * 100);
        vstd::arithmetic::div_mod::lemma_div_basics_4(
            col as int * ((100 - quality_start as int) * 100),
            mwidth as int,
        );
        vstd::arithmetic::mul::lemma_mul_inequality(
            col as int,
            mwidth as int - 1,
            (100 - quality_start as int) * 100,
        );
        vstd::arithmetic::div_mod::lemma_div_is_ordered(
            col as int * ((100 - quality_start as int) * 100),
            (mwidth as int - 1) * ((100 - quality_start as int) * 100),
            mwidth as int,
        );
        lemma_ramp_div_bound(mwidth as int, (100 - quality_start as int) * 100);
    }
    let ramp: u64 = qs * 100 + (colw * ((100 - qs) * 100)) / mw;
    let factor: u64 = if ramp >= 5000 {
        20000 - 2 * ramp
    } else {
        proof {
            vstd::arithmetic::div_mod::lemma_div_is_ordered(ramp as int, 5000, 1);
            vstd::arithmetic::div_mod::lemma_div_is_ordered_by_denominator(50000000, 100, ramp as int);
            vstd::arithmetic::div_mod::lemma_div_basics_4(50000000, ramp as int);
        }
        50000000 / ramp
    };
    proof {
        vstd::arithmetic::mul::lemma_mul_upper_bound(q as int, MAX_Q_BASE as int, factor as int, 500000);
        vstd::arithmetic::mul::lemma_mul_nonnegative(q as int, factor as int);
        vstd::arithmetic::div_mod::lemma_div_basics_4(q as int * factor as int, 400);
        vstd::arithmetic::div_mod::lemma_div_is_ordered(
            q as int * factor as int,
            MAX_Q_BASE as int * 500000,
            400,
        );
    }
    let s = ((q as u64) * factor) / 400;
    if s < 1 {
        1
    } else {
        s as u32
    }
}

/// A partial ramp stays below the full span: the column fraction of the
/// remaining quality range is below the whole range.
proof fn lemma_ramp_div_bound(mw: int, span: int)
    requires
        1 <= mw,
        0 <= span,
    ensures
        ((mw - 1) * span) / mw < span || span == 0,
{
    if span > 0 {
        vstd::arithmetic::mul::lemma_mul_is_commutative(mw - 1, span);
        vstd::arithmetic::mul::lemma_mul_is_commutative(mw, span);
        vstd::arithmetic::mul::lemma_mul_inequality(mw - 1, mw, span);
        if ((mw - 1) * span) / mw >= span {
            vstd::arithmetic::div_mod::lemma_fundamental_div_mod((mw - 1) * span, mw);
            vstd::arithmetic::div_mod::lemma_mod_bound((mw - 1) * span, mw);
            vstd::arithmetic::mul::lemma_mul_inequality(span, ((mw - 1) * span) / mw, mw);
            assert(mw * span <= mw * (((mw - 1) * span) / mw)) by {
                vstd::arithmetic::mul::lemma_mul_inequality(span, ((mw - 1) * span) / mw, mw);
                vstd::arithmetic::mul::lemma_mul_is_commutative(span, mw);
                vstd::arithmetic::mul::lemma_mul_is_commutative(((mw - 1) * span) / mw, mw);
            }
            assert((mw - 1) * span < mw * span) by {
                vstd::arithmetic::mul::lemma_mul_strict_inequality(mw - 1, mw, span);
            }
        }
    }
}

/// Quantize one coefficient.
pub fn quantize_coeff(c: i32, q: u32) -> (r: i32)
    requires
        1 <= q,
    ensures
        r as int == rdiv(c as int, q as int),
{
    let ci = c as i64;
    let qi = q as i64;
    if ci >= 0 {
        proof {
            lemma_rounding_div_bounded(ci as int, qi as int, 0x7fffffff);
        }
        ((ci + qi / 2) / qi) as i32
    } else {
        proof {
            lemma_rounding_div_bounded(-ci as int, qi as int, 0x80000000);
        }
        (-((-ci + qi / 2) / qi)) as i32
    }
}

/// The rounded quotient of a bounded numerator stays within the bound.
proof fn lemma_rounding_div_bounded(a: int, q: int, bound: int)
    requires
        0 <= a <= bound,
        1 <= q <= 2 * bound + 1,
    ensures
        0 <= (a + q / 2) / q <= bound,
{
    let s = q / 2;
    vstd::arithmetic::div_mod::lemma_fundamental_div_mod(q, 2);
    vstd::arithmetic::div_mod::lemma_mod_bound(q, 2);
    vstd::arithmetic::div_mod::lemma_div_basics_4(a + s, q);
    if q == 1 {
        vstd::arithmetic::div_mod::lemma_div_basics(a + s);
    } else {
        vstd::arithmetic::div_mod::lemma_div_is_ordered_by_denominator(a + s, 2, q);
        vstd::arithmetic::div_mod::lemma_div_is_ordered(a + s, 2 * bound, 2);
        assert((2 * bound) / 2 == bound) by {
            vstd::arithmetic::div_mod::lemma_fundamental_div_mod_converse(2 * bound, 2, bound, 0);
        }
    }
}

/// Dequantize one coefficient, saturating at the 32-bit bounds.
pub fn dequantize_coeff(c: i32, q: u32) -> (r: i32)
    requires
        1 <= q <= MAX_Q_STEP,
    ensures
        r as int == dequant_val(c as int, q as int),
{
    proof {
        assert((c as i64) * (q as i64) < 0x4000000000000000 && (c as i64) * (q as i64)
            > -0x4000000000000000) by (nonlinear_arith)
            requires
                -0x80000000 <= c as i64 <= 0x7fffffff,
                1 <= q as i64 <= MAX_Q_STEP,
        {}
    }
    let p = (c as i64) * (q as i64);
    if p > 0x7fffffff {
        0x7fffffffi32
    } else if p < -0x80000000 {
        -0x80000000i32
    } else {
        p as i32
    }
}

} // verus!
