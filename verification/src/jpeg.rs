//! The JPEG-style block pipeline around the transform kernel: configuration,
//! quantization and dequantization of transform coefficients, and the tiling
//! of the padded planes into fixed-size blocks and back.
//!
//! The forward and inverse transforms themselves are floating-point kernels
//! supplied by the caller; this module prepares their integer inputs and
//! consumes their rounded outputs.
use vstd::prelude::*;

use crate::color;
use crate::my_image::MyImage;
use crate::quad_tree::accepted_block_size;
use crate::quant;
use crate::{pidx, MAX_PAD};

verus! {

/// Fixed-grid codec configuration.
pub struct Jpeg {
    /// Tile size of the fixed grid.
    pub block_size: usize,
    /// Index of the tile size among the accepted sizes.
    pub block_size_index: usize,
    /// Quality between 1 and 100.
    pub quality: u32,
    /// Start quality of the compression-rate ramp.
    pub quality_start: u32,
    /// Whether block work runs on a worker pool.
    pub use_threads: bool,
    /// Whether the fast transform kernels are used.
    pub use_fast_dct: bool,
    /// Whether the generated quantization matrix family is used.
    pub use_gen_qtable: bool,
    /// Whether the per-column quality ramp is applied.
    pub use_compression_rate: bool,
}

impl Jpeg {
    /// The block size is accepted and the qualities are in range.
    pub open spec fn wf(self) -> bool {
        &&& accepted_block_size(self.block_size as int)
        &&& 1 <= self.quality <= 100
        &&& 1 <= self.quality_start <= 100
    }

    /// Create a fixed-grid codec configuration.
    pub fn new(
        block_size: usize,
        quality: u32,
        quality_start: u32,
        block_size_index: usize,
        use_gen_qtable: bool,
        use_threads: bool,
        use_fast_dct: bool,
        use_compression_rate: bool,
    ) -> (j: Jpeg)
        requires
            accepted_block_size(block_size as int),
            1 <= quality <= 100,
            1 <= quality_start <= 100,
        ensures
            j.wf(),
            j.block_size == block_size,
            j.quality == quality,
            j.quality_start == quality_start,
            j.block_size_index == block_size_index,
            j.use_gen_qtable == use_gen_qtable,
            j.use_threads == use_threads,
            j.use_fast_dct == use_fast_dct,
            j.use_compression_rate == use_compression_rate,
    {
        Jpeg {
            block_size,
            block_size_index,
            quality,
            quality_start,
            use_threads,
            use_fast_dct,
            use_gen_qtable,
            use_compression_rate,
        }
    }

    /// Build the scaled luma and chroma quantization matrices for this
    /// configuration: the base or generated family, scaled by the quality
    /// factor unless the per-column ramp takes over.
    pub fn build_q_matrices(&self, block_size: usize) -> (qs: (Vec<u32>, Vec<u32>))
        requires
            self.wf(),
            accepted_block_size(block_size as int),
        ensures
            quant::q_wf(qs.0@, block_size as int),
            quant::q_wf(qs.1@, block_size as int),
            forall|k: int|
                0 <= k < block_size * block_size ==> 1 <= (#[trigger] qs.0@[k])
                    <= quant::MAX_Q_BASE || !self.use_compression_rate,
            forall|k: int|
                0 <= k < block_size * block_size ==> 1 <= (#[trigger] qs.1@[k])
                    <= quant::MAX_Q_BASE || !self.use_compression_rate,
            !self.use_compression_rate ==> forall|y: int, x: int|
                0 <= y < block_size && 0 <= x < block_size ==> (#[trigger] qs.0@[y * block_size
                    + x]) as int == quant::scaled_q(
                    quant::q_gen_at(quant::q_luma_base(), self.use_gen_qtable, y, x),
                    quant::quality_factor_centi(self.use_gen_qtable, self.quality as int),
                ),
            !self.use_compression_rate ==> forall|y: int, x: int|
                0 <= y < block_size && 0 <= x < block_size ==> (#[trigger] qs.1@[y * block_size
                    + x]) as int == quant::scaled_q(
                    quant::q_gen_at(quant::q_chroma_base(), self.use_gen_qtable, y, x),
                    quant::quality_factor_centi(self.use_gen_qtable, self.quality as int),
                ),
            self.use_compression_rate ==> forall|y: int, x: int|
                0 <= y < block_size && 0 <= x < block_size ==> (#[trigger] qs.0@[y * block_size
                    + x]) as int == quant::q_gen_at(quant::q_luma_base(), self.use_gen_qtable, y, x),
            self.use_compression_rate ==> forall|y: int, x: int|
                0 <= y < block_size && 0 <= x < block_size ==> (#[trigger] qs.1@[y * block_size
                    + x]) as int == quant::q_gen_at(
                    quant::q_chroma_base(),
                    self.use_gen_qtable,
                    y,
                    x,
                ),
    {
        let base_luma = quant::q_matrix_luma_const();
        let base_chroma = quant::q_matrix_chroma_const();
        proof {
            assert forall|k: int| 0 <= k < 64 implies 1 <= (#[trigger] base_luma@[k]) <= 128 by {
                assert(base_luma@[k] == quant::q_luma_base()[k]);
            }
            assert forall|k: int| 0 <= k < 64 implies 1 <= (#[trigger] base_chroma@[k]) <= 128 by {
                assert(base_chroma@[k] == quant::q_chroma_base()[k]);
            }
        }
        let mut q_luma = quant::generate_q_matrix(&base_luma, block_size, self.use_gen_qtable);
        let mut q_chroma = quant::generate_q_matrix(&base_chroma, block_size, self.use_gen_qtable);
        if !self.use_compression_rate {
            let factor = quant::quality_factor(self.use_gen_qtable, self.quality);
            proof {
                assert forall|k: int| 0 <= k < block_size * block_size implies 1 <= (
                #[trigger] q_luma@[k]) <= quant::MAX_Q_BASE by {
                    lemma_q_entry_bound(q_luma@, block_size as int, k);
                }
                assert forall|k: int| 0 <= k < block_size * block_size implies 1 <= (
                #[trigger] q_chroma@[k]) <= quant::MAX_Q_BASE by {
                    lemma_q_entry_bound(q_chroma@, block_size as int, k);
                }
            }
            quant::apply_q_matrix_factor(&mut q_luma, block_size, factor);
            quant::apply_q_matrix_factor(&mut q_chroma, block_size, factor);
            proof {
                let bs = block_size as int;
                assert forall|y: int, x: int| 0 <= y < bs && 0 <= x < bs implies (
                #[trigger] q_luma@[y * bs + x]) as int == quant::scaled_q(
                    quant::q_gen_at(quant::q_luma_base(), self.use_gen_qtable, y, x),
                    quant::quality_factor_centi(self.use_gen_qtable, self.quality as int),
                ) && (#[trigger] q_chroma@[y * bs + x]) as int == quant::scaled_q(
                    quant::q_gen_at(quant::q_chroma_base(), self.use_gen_qtable, y, x),
                    quant::quality_factor_centi(self.use_gen_qtable, self.quality as int),
                ) by {
                    crate::lemma_pidx_bound(bs, bs, x, y);
                }
            }
        } else {
            proof {
                assert forall|k: int| 0 <= k < block_size * block_size implies 1 <= (
                #[trigger] q_luma@[k]) <= quant::MAX_Q_BASE by {
                    lemma_q_entry_bound(q_luma@, block_size as int, k);
                }
                assert forall|k: int| 0 <= k < block_size * block_size implies 1 <= (
                #[trigger] q_chroma@[k]) <= quant::MAX_Q_BASE by {
                    lemma_q_entry_bound(q_chroma@, block_size as int, k);
                }
            }
        }
        (q_luma, q_chroma)
    }
}

/// A freshly generated matrix entry is a base or ramp value, hence small.
pub proof fn lemma_q_entry_bound(q: Seq<u32>, n: int, k: int)
    requires
        1 <= n <= 512,
        q.len() == n * n,
        0 <= k < n * n,
        forall|y: int, x: int|
            0 <= y < n && 0 <= x < n ==> 1 <= (#[trigger] q[y * n + x]) && q[y * n + x] as int
                <= 1024,
    ensures
        1 <= q[k] <= quant::MAX_Q_BASE,
{
    vstd::arithmetic::div_mod::lemma_fundamental_div_mod(k, n);
    vstd::arithmetic::div_mod::lemma_mod_bound(k, n);
    let yy = k / n;
    let xx = k % n;
    if yy >= n {
        vstd::arithmetic::mul::lemma_mul_inequality(n, yy, n);
    }
    if yy < 0 {
        vstd::arithmetic::mul::lemma_mul_inequality(yy, -1, n);
    }
    assert(yy * n == n * yy) by {
        vstd::arithmetic::mul::lemma_mul_is_commutative(yy, n);
    }
    assert(1 <= q[yy * n + xx] && q[yy * n + xx] as int <= 1024);
}

/// The per-block integer state of the pipeline: everything the quantize
/// and dequantize steps need besides the transform kernel itself.
pub struct JpegSteps {
    /// Padded row length of the image being coded.
    pub mwidth: usize,
    /// Size of the block being coded.
    pub block_size: usize,
    /// Index of the block size among the accepted sizes.
    pub block_size_index: usize,
    /// Start quality of the compression-rate ramp.
    pub quality_start: u32,
    /// Whether the fast transform kernels are used.
    pub use_fast_dct: bool,
    /// Whether the generated quantization matrix family is used.
    pub use_gen_qtable: bool,
    /// Whether the per-column quality ramp is applied.
    pub use_compression_rate: bool,
}

impl JpegSteps {
    /// The block fits the padded width and the sizes are accepted.
    pub open spec fn wf(self) -> bool {
        &&& accepted_block_size(self.block_size as int)
        &&& 1 <= self.quality_start <= 100
        &&& self.block_size <= self.mwidth <= MAX_PAD
    }

    /// Capture the per-block state of a configuration.
    pub fn new(jpeg: &Jpeg, mwidth: usize) -> (s: JpegSteps)
        requires
            jpeg.wf(),
            jpeg.block_size <= mwidth <= MAX_PAD,
        ensures
            s.wf(),
            s.mwidth == mwidth,
            s.block_size == jpeg.block_size,
            s.block_size_index == jpeg.block_size_index,
            s.quality_start == jpeg.quality_start,
            s.use_fast_dct == jpeg.use_fast_dct,
            s.use_gen_qtable == jpeg.use_gen_qtable,
            s.use_compression_rate == jpeg.use_compression_rate,
    {
        JpegSteps {
            mwidth,
            block_size: jpeg.block_size,
            block_size_index: jpeg.block_size_index,
            quality_start: jpeg.quality_start,
            use_fast_dct: jpeg.use_fast_dct,
            use_gen_qtable: jpeg.use_gen_qtable,
            use_compression_rate: jpeg.use_compression_rate,
        }
    }

    /// The quantization step used for the coefficient at `(yy, xx)` of a
    /// block whose left edge is the image column `start_x`.
    pub open spec fn q_step(self, q: Seq<u32>, start_x: int, yy: int, xx: int) -> int {
        if self.use_compression_rate {
            quant::col_step(
                q[yy * self.block_size + xx] as int,
                self.quality_start as int,
                self.mwidth as int,
                start_x + xx,
            )
        } else {
            q[yy * self.block_size + xx] as int
        }
    }

    /// Quantize a block of transform coefficients in place.
    pub fn quantize_function(&self, start_x: usize, q_matrix: &Vec<u32>, dct_matrix: &mut Vec<i32>)
        requires
            self.wf(),
            quant::q_wf(q_matrix@, self.block_size as int),
            self.use_compression_rate ==> forall|k: int|
                0 <= k < self.block_size * self.block_size ==> 1 <= (#[trigger] q_matrix@[k])
                    <= quant::MAX_Q_BASE,
            old(dct_matrix)@.len() == self.block_size * self.block_size,
            start_x + self.block_size <= self.mwidth,
        ensures
            final(dct_matrix)@.len() == self.block_size * self.block_size,
            forall|yy: int, xx: int|
                0 <= yy < self.block_size && 0 <= xx < self.block_size ==> (#[trigger] final(dct_matrix)@[yy
                    * self.block_size + xx]) as int == quant::rdiv(
                    old(dct_matrix)@[yy * self.block_size + xx] as int,
                    self.q_step(q_matrix@, start_x as int, yy, xx),
                ),
    {
        let n = self.block_size;
        proof {
            vstd::arithmetic::mul::lemma_mul_upper_bound(n as int, 512, n as int, 512);
        }
        let mut y: usize = 0;
        while y < n
            invariant
                self.wf(),
                n == self.block_size,
                quant::q_wf(q_matrix@, n as int),
                self.use_compression_rate ==> forall|k: int|
                    0 <= k < n * n ==> 1 <= (#[trigger] q_matrix@[k]) <= quant::MAX_Q_BASE,
                dct_matrix@.len() == n * n,
                start_x + n <= self.mwidth,
                y <= n,
                forall|yy: int, xx: int|
                    0 <= yy < n && 0 <= xx < n && yy < y ==> (#[trigger] dct_matrix@[yy * n + xx])
                        as int == quant::rdiv(
                        old(dct_matrix)@[yy * n + xx] as int,
                        self.q_step(q_matrix@, start_x as int, yy, xx),
                    ),
                forall|yy: int, xx: int|
                    0 <= yy < n && 0 <= xx < n && yy >= y ==> #[trigger] dct_matrix@[yy * n + xx]
                        == old(dct_matrix)@[yy * n + xx],
            decreases n - y,
        {
            let mut x: usize = 0;
            while x < n
                invariant
                    self.wf(),
                    n == self.block_size,
                    quant::q_wf(q_matrix@, n as int),
                    self.use_compression_rate ==> forall|k: int|
                        0 <= k < n * n ==> 1 <= (#[trigger] q_matrix@[k]) <= quant::MAX_Q_BASE,
                    dct_matrix@.len() == n * n,
                    start_x + n <= self.mwidth,
                    y < n,
                    x <= n,
                    forall|yy: int, xx: int|
                        0 <= yy < n && 0 <= xx < n && (yy < y || (yy == y && xx < x)) ==> (
                        #[trigger] dct_matrix@[yy * n + xx]) as int == quant::rdiv(
                            old(dct_matrix)@[yy * n + xx] as int,
                            self.q_step(q_matrix@, start_x as int, yy, xx),
                        ),
                    forall|yy: int, xx: int|
                        0 <= yy < n && 0 <= xx < n && !(yy < y || (yy == y && xx < x))
                            ==> #[trigger] dct_matrix@[yy * n + xx] == old(dct_matrix)@[yy * n
                            + xx],
                decreases n - x,
            {
                proof {
                    crate::lemma_pidx_bound(n as int, n as int, x as int, y as int);
                    vstd::arithmetic::mul::lemma_mul_upper_bound(n as int, 512, n as int, 512);
                }
                let index = y * n + x;
                let step: u32 = if self.use_compression_rate {
                    quant::column_step(q_matrix[index], self.quality_start, self.mwidth, start_x + x)
                } else {
                    q_matrix[index]
                };
                let v = quant::quantize_coeff(dct_matrix[index], step);
                dct_matrix[index] = v;
                x = x + 1;
                proof {
                    lemma_block_cell_step(dct_matrix@, n as int, x as int, y as int);
                }
            }
            y = y + 1;
        }
    }

    /// Dequantize a block of quantized coefficients in place, saturating
    /// at the 32-bit bounds.
    pub fn de_quantize_function(
        &self,
        start_x: usize,
        q_matrix: &Vec<u32>,
        dct_matrix: &mut Vec<i32>,
    )
        requires
            self.wf(),
            quant::q_wf(q_matrix@, self.block_size as int),
            self.use_compression_rate ==> forall|k: int|
                0 <= k < self.block_size * self.block_size ==> 1 <= (#[trigger] q_matrix@[k])
                    <= quant::MAX_Q_BASE,
            old(dct_matrix)@.len() == self.block_size * self.block_size,
            start_x + self.block_size <= self.mwidth,
        ensures
            final(dct_matrix)@.len() == self.block_size * self.block_size,
            forall|yy: int, xx: int|
                0 <= yy < self.block_size && 0 <= xx < self.block_size ==> (#[trigger] final(dct_matrix)@[yy
                    * self.block_size + xx]) as int == quant::dequant_val(
                    old(dct_matrix)@[yy * self.block_size + xx] as int,
                    self.q_step(q_matrix@, start_x as int, yy, xx),
                ),
    {
        let n = self.block_size;
        proof {
            vstd::arithmetic::mul::lemma_mul_upper_bound(n as int, 512, n as int, 512);
        }
        let mut y: usize = 0;
        while y < n
            invariant
                self.wf(),
                n == self.block_size,
                quant::q_wf(q_matrix@, n as int),
                self.use_compression_rate ==> forall|k: int|
                    0 <= k < n * n ==> 1 <= (#[trigger] q_matrix@[k]) <= quant::MAX_Q_BASE,
                dct_matrix@.len() == n * n,
                start_x + n <= self.mwidth,
                y <= n,
                forall|yy: int, xx: int|
                    0 <= yy < n && 0 <= xx < n && yy < y ==> (#[trigger] dct_matrix@[yy * n + xx])
                        as int == quant::dequant_val(
                        old(dct_matrix)@[yy * n + xx] as int,
                        self.q_step(q_matrix@, start_x as int, yy, xx),
                    ),
                forall|yy: int, xx: int|
                    0 <= yy < n && 0 <= xx < n && yy >= y ==> #[trigger] dct_matrix@[yy * n + xx]
                        == old(dct_matrix)@[yy * n + xx],
            decreases n - y,
        {
            let mut x: usize = 0;
            while x < n
                invariant
                    self.wf(),
                    n == self.block_size,
                    quant::q_wf(q_matrix@, n as int),
                    self.use_compression_rate ==> forall|k: int|
                        0 <= k < n * n ==> 1 <= (#[trigger] q_matrix@[k]) <= quant::MAX_Q_BASE,
                    dct_matrix@.len() == n * n,
                    start_x + n <= self.mwidth,
                    y < n,
                    x <= n,
                    forall|yy: int, xx: int|
                        0 <= yy < n && 0 <= xx < n && (yy < y || (yy == y && xx < x)) ==> (
                        #[trigger] dct_matrix@[yy * n + xx]) as int == quant::dequant_val(
                            old(dct_matrix)@[yy * n + xx] as int,
                            self.q_step(q_matrix@, start_x as int, yy, xx),
                        ),
                    forall|yy: int, xx: int|
                        0 <= yy < n && 0 <= xx < n && !(yy < y || (yy == y && xx < x))
                            ==> #[trigger] dct_matrix@[yy * n + xx] == old(dct_matrix)@[yy * n
                            + xx],
                decreases n - x,
            {
                proof {
                    crate::lemma_pidx_bound(n as int, n as int, x as int, y as int);
                    vstd::arithmetic::mul::lemma_mul_upper_bound(n as int, 512, n as int, 512);
                }
                let index = y * n + x;
                let step: u32 = if self.use_compression_rate {
                    quant::column_step(q_matrix[index], self.quality_start, self.mwidth, start_x + x)
                } else {
                    q_matrix[index]
                };
                let v = quant::dequantize_coeff(dct_matrix[index], step);
                dct_matrix[index] = v;
                x = x + 1;
                proof {
                    lemma_block_cell_step(dct_matrix@, n as int, x as int, y as int);
                }
            }
            y = y + 1;
        }
    }
}

/// Row-major block cells before and after the cursor keep their indices
/// apart.
proof fn lemma_block_cell_step(b: Seq<i32>, n: int, x: int, y: int)
    requires
        1 <= n,
        0 < x <= n,
        0 <= y < n,
    ensures
        forall|yy: int, xx: int|
            0 <= yy < n && 0 <= xx < n && !(yy == y && xx == x - 1) ==> #[trigger] (yy * n + xx)
                != y * n + (x - 1),
{
    assert forall|yy: int, xx: int|
        0 <= yy < n && 0 <= xx < n && !(yy == y && xx == x - 1) implies #[trigger] (yy * n + xx)
        != y * n + (x - 1) by {
        crate::lemma_pidx(n, xx, yy);
        crate::lemma_pidx(n, x - 1, y);
    }
}

/// Read one `n` by `n` block of a plane, shifted down by the 128 offset
/// the transform kernels expect.
pub fn extract_block(
    plane: &Vec<u8>,
    mw: usize,
    mh: usize,
    sx: usize,
    sy: usize,
    n: usize,
) -> (b: Vec<i32>)
    requires
        1 <= mw <= MAX_PAD,
        1 <= mh <= MAX_PAD,
        plane@.len() == mw * mh,
        sx + n <= mw,
        sy + n <= mh,
        1 <= n <= 512,
    ensures
        b@.len() == n * n,
        forall|yy: int, xx: int|
            0 <= yy < n && 0 <= xx < n ==> (#[trigger] b@[yy * n + xx]) as int == plane@[pidx(
                mw as int,
                sx + xx,
                sy + yy,
            )] as int - 128,
{
    proof {
        vstd::arithmetic::mul::lemma_mul_upper_bound(n as int, 512, n as int, 512);
    }
    let mut b: Vec<i32> = Vec::new();
    let mut y: usize = 0;
    while y < n
        invariant
            1 <= mw <= MAX_PAD,
            1 <= mh <= MAX_PAD,
            plane@.len() == mw * mh,
            sx + n <= mw,
            sy + n <= mh,
            1 <= n <= 512,
            y <= n,
            b@.len() == y * n,
            forall|yy: int, xx: int|
                0 <= yy < y && 0 <= xx < n ==> (#[trigger] b@[yy * n + xx]) as int == plane@[pidx(
                    mw as int,
                    sx + xx,
                    sy + yy,
                )] as int - 128,
        decreases n - y,
    {
        let mut x: usize = 0;
        while x < n
            invariant
                1 <= mw <= MAX_PAD,
                1 <= mh <= MAX_PAD,
                plane@.len() == mw * mh,
                sx + n <= mw,
                sy + n <= mh,
                1 <= n <= 512,
                y < n,
                x <= n,
                b@.len() == y * n + x,
                forall|yy: int, xx: int|
                    0 <= yy < n && 0 <= xx < n && (yy < y || (yy == y && xx < x)) ==> (
                    #[trigger] b@[yy * n + xx]) as int == plane@[pidx(
                        mw as int,
                        sx + xx,
                        sy + yy,
                    )] as int - 128,
            decreases n - x,
        {
            proof {
                crate::lemma_pidx_bound(mw as int, mh as int, (sx + x) as int, (sy + y) as int);
                vstd::arithmetic::mul::lemma_mul_upper_bound(
                    mw as int,
                    MAX_PAD as int,
                    mh as int,
                    MAX_PAD as int,
                );
                crate::lemma_pidx_bound(n as int, n as int, x as int, y as int);
            }
            let v = plane[(sy + y) * mw + (sx + x)] as i32 - 128;
            b.push(v);
            x = x + 1;
            proof {
                assert forall|yy: int, xx: int|
                    0 <= yy < n && 0 <= xx < n && (yy < y || (yy == y && xx < x)) implies (
                #[trigger] b@[yy * n + xx]) as int == plane@[pidx(
                    mw as int,
                    sx + xx,
                    sy + yy,
                )] as int - 128 by {
                    crate::lemma_pidx(n as int, xx, yy);
                    crate::lemma_pidx(n as int, x as int - 1, y as int);
                    if !(yy == y && xx == x - 1) {
                        crate::lemma_pidx_order(n as int, xx, yy, x as int - 1, y as int);
                    }
                }
            }
        }
        proof {
            assert(y * n + n == (y + 1) * n) by {
                vstd::arithmetic::mul::lemma_mul_is_distributive_add_other_way(
                    n as int,
                    y as int,
                    1,
                );
            }
        }
        y = y + 1;
    }
    b
}

/// Write one reconstructed `n` by `n` block back into a plane, restoring
/// the 128 offset and clamping each sample to a byte.
pub fn write_block(
    plane: &mut Vec<u8>,
    mw: usize,
    mh: usize,
    sx: usize,
    sy: usize,
    n: usize,
    block: &Vec<i32>,
)
    requires
        1 <= mw <= MAX_PAD,
        1 <= mh <= MAX_PAD,
        old(plane)@.len() == mw * mh,
        sx + n <= mw,
        sy + n <= mh,
        1 <= n <= 512,
        block@.len() == n * n,
    ensures
        final(plane)@.len() == mw * mh,
        forall|yy: int, xx: int|
            0 <= yy < n && 0 <= xx < n ==> (#[trigger] final(plane)@[pidx(
                mw as int,
                sx + xx,
                sy + yy,
            )]) as int == color::clamp255(block@[yy * n + xx] as int + 128),
        forall|x: int, y: int|
            0 <= x < mw && 0 <= y < mh && !(sx <= x < sx + n && sy <= y < sy + n)
                ==> #[trigger] final(plane)@[pidx(mw as int, x, y)] == old(plane)@[pidx(
                mw as int,
                x,
                y,
            )],
{
    proof {
        vstd::arithmetic::mul::lemma_mul_upper_bound(n as int, 512, n as int, 512);
    }
    let mut y: usize = 0;
    while y < n
        invariant
            1 <= mw <= MAX_PAD,
            1 <= mh <= MAX_PAD,
            plane@.len() == mw * mh,
            sx + n <= mw,
            sy + n <= mh,
            1 <= n <= 512,
            block@.len() == n * n,
            y <= n,
            forall|yy: int, xx: int|
                0 <= yy < n && 0 <= xx < n && yy < y ==> (#[trigger] plane@[pidx(
                    mw as int,
                    sx + xx,
                    sy + yy,
                )]) as int == color::clamp255(block@[yy * n + xx] as int + 128),
            forall|x: int, yb: int|
                0 <= x < mw && 0 <= yb < mh && !(sx <= x < sx + n && sy <= yb < sy + y)
                    ==> #[trigger] plane@[pidx(mw as int, x, yb)] == old(plane)@[pidx(
                    mw as int,
                    x,
                    yb,
                )],
        decreases n - y,
    {
        let mut x: usize = 0;
        while x < n
            invariant
                1 <= mw <= MAX_PAD,
                1 <= mh <= MAX_PAD,
                plane@.len() == mw * mh,
                sx + n <= mw,
                sy + n <= mh,
                1 <= n <= 512,
                block@.len() == n * n,
                y < n,
                x <= n,
                forall|yy: int, xx: int|
                    0 <= yy < n && 0 <= xx < n && (yy < y || (yy == y && xx < x)) ==> (
                    #[trigger] plane@[pidx(mw as int, sx + xx, sy + yy)]) as int == color::clamp255(
                        block@[yy * n + xx] as int + 128,
                    ),
                forall|xp: int, yp: int|
                    0 <= xp < mw && 0 <= yp < mh && !(sx <= xp < sx + n && sy <= yp < sy + y) && !(
                    yp == sy + y && sx <= xp < sx + x) ==> #[trigger] plane@[pidx(
                        mw as int,
                        xp,
                        yp,
                    )] == old(plane)@[pidx(mw as int, xp, yp)],
            decreases n - x,
        {
            proof {
                crate::lemma_pidx_bound(mw as int, mh as int, (sx + x) as int, (sy + y) as int);
                vstd::arithmetic::mul::lemma_mul_upper_bound(
                    mw as int,
                    MAX_PAD as int,
                    mh as int,
                    MAX_PAD as int,
                );
                crate::lemma_pidx_bound(n as int, n as int, x as int, y as int);
                vstd::arithmetic::mul::lemma_mul_upper_bound(n as int, 512, n as int, 512);
            }
            let idx = y * n + x;
            let sample = block[idx];
            let v = crate::my_image::min_max_color(if sample > 0x7fffff00 {
                0x7fffffff
            } else {
                sample + 128
            });
            plane[(sy + y) * mw + (sx + x)] = v;
            x = x + 1;
            proof {
                assert forall|yy: int, xx: int|
                    0 <= yy < n && 0 <= xx < n && (yy < y || (yy == y && xx < x)) implies (
                #[trigger] plane@[pidx(mw as int, sx + xx, sy + yy)]) as int == color::clamp255(
                    block@[yy * n + xx] as int + 128,
                ) by {
                    crate::lemma_pidx(mw as int, sx + xx, sy + yy);
                    crate::lemma_pidx(mw as int, sx + x - 1, sy + y);
                    crate::lemma_pidx_bound(mw as int, mh as int, sx + xx, sy + yy);
                    crate::lemma_pidx(n as int, xx, yy);
                    crate::lemma_pidx(n as int, x as int - 1, y as int);
                }
                assert forall|xp: int, yp: int|
                    0 <= xp < mw && 0 <= yp < mh && !(sx <= xp < sx + n && sy <= yp < sy + y) && !(
                    yp == sy + y && sx <= xp < sx + x) implies #[trigger] plane@[pidx(
                    mw as int,
                    xp,
                    yp,
                )] == old(plane)@[pidx(mw as int, xp, yp)] by {
                    crate::lemma_pidx(mw as int, xp, yp);
                    crate::lemma_pidx(mw as int, sx + x - 1, sy + y);
                    crate::lemma_pidx_bound(mw as int, mh as int, xp, yp);
                }
            }
        }
        y = y + 1;
    }
}

/// Pad the image for the fixed grid and fill the working planes: the
/// colorspace transform, the neutral padding, and the subsampling pattern.
impl Jpeg {
    /// Prepare an image for the fixed-grid block pass.
    pub fn prepare_render(&self, my_image: &mut MyImage, use_ycbcr: bool, subsampling_index: usize)
        requires
            self.wf(),
            old(my_image).wf(),
        ensures
            final(my_image).wf(),
            final(my_image).planes_wf(),
            final(my_image).width == old(my_image).width,
            final(my_image).height == old(my_image).height,
            final(my_image).original_image == old(my_image).original_image,
            final(my_image).mwidth as nat == crate::round_up(
                old(my_image).width as nat,
                self.block_size as nat,
            ),
            final(my_image).mheight as nat == crate::round_up(
                old(my_image).height as nat,
                self.block_size as nat,
            ),
            final(my_image).mwidth % self.block_size == 0,
            final(my_image).mheight % self.block_size == 0,
            crate::my_image::prepared_planes(
                *final(my_image),
                *old(my_image),
                use_ycbcr,
                subsampling_index as int,
            ),
    {
        proof {
            crate::lemma_round_up(old(my_image).width as nat, self.block_size as nat);
            crate::lemma_round_up(old(my_image).height as nat, self.block_size as nat);
        }
        my_image.round_up_size(self.block_size);
        let ghost pre1 = *my_image;
        if use_ycbcr {
            my_image.image_to_ycbcr();
            let ghost conv = *my_image;
            my_image.fill_outbound();
            let ghost filled = *my_image;
            my_image.subsampling(true, subsampling_index);
            proof {
                crate::my_image::lemma_prepared_planes(
                    pre1,
                    conv,
                    filled,
                    *my_image,
                    true,
                    subsampling_index as int,
                );
                crate::my_image::lemma_prepared_transfer(
                    *my_image,
                    pre1,
                    *old(my_image),
                    true,
                    subsampling_index as int,
                );
            }
        } else {
            my_image.image_to_rgb();
            let ghost conv = *my_image;
            my_image.fill_outbound();
            let ghost filled = *my_image;
            my_image.subsampling(false, subsampling_index);
            proof {
                crate::my_image::lemma_prepared_planes(
                    pre1,
                    conv,
                    filled,
                    *my_image,
                    false,
                    subsampling_index as int,
                );
                crate::my_image::lemma_prepared_transfer(
                    *my_image,
                    pre1,
                    *old(my_image),
                    false,
                    subsampling_index as int,
                );
            }
        }
    }
}

/// The tiles of the fixed grid over a padded plane, in row-major block
/// order: block `(bx, by)` starts at `(bx n, by n)`.
pub fn grid_geometry(mwidth: usize, mheight: usize, block_size: usize) -> (geo: Vec<
    (usize, usize, usize),
>)
    requires
        1 <= block_size <= 512,
        block_size <= mwidth <= MAX_PAD,
        block_size <= mheight <= MAX_PAD,
        mwidth % block_size == 0,
        mheight % block_size == 0,
    ensures
        geo@.len() == (mwidth / block_size) * (mheight / block_size),
        forall|by: int, bx: int|
            0 <= by < mheight / block_size && 0 <= bx < mwidth / block_size ==> (
            #[trigger] geo@[by * (mwidth / block_size) + bx]) == (
                (bx * block_size) as usize,
                (by * block_size) as usize,
                block_size,
            ),
        forall|k: int|
            0 <= k < geo@.len() ==> (#[trigger] geo@[k]).0 + geo@[k].2 <= mwidth && geo@[k].1
                + geo@[k].2 <= mheight && geo@[k].2 == block_size,
{
    let n = block_size;
    let bwc = mwidth / n;
    let bhc = mheight / n;
    proof {
        vstd::arithmetic::mul::lemma_mul_upper_bound(bwc as int, MAX_PAD as int, bhc as int, MAX_PAD as int);
    }
    let mut geo: Vec<(usize, usize, usize)> = Vec::new();
    let mut by: usize = 0;
    while by < bhc
        invariant
            1 <= n <= 512,
            n <= mwidth <= MAX_PAD,
            n <= mheight <= MAX_PAD,
            mwidth % n == 0,
            mheight % n == 0,
            bwc == mwidth / n,
            bhc == mheight / n,
            by <= bhc,
            geo@.len() == by * bwc,
            forall|jy: int, jx: int|
                0 <= jy < by && 0 <= jx < bwc ==> (#[trigger] geo@[jy * bwc + jx]) == (
                    (jx * n) as usize,
                    (jy * n) as usize,
                    n,
                ),
            forall|k: int|
                0 <= k < geo@.len() ==> (#[trigger] geo@[k]).0 + geo@[k].2 <= mwidth && geo@[k].1
                    + geo@[k].2 <= mheight && geo@[k].2 == n,
        decreases bhc - by,
    {
        let mut bx: usize = 0;
        while bx < bwc
            invariant
                1 <= n <= 512,
                n <= mwidth <= MAX_PAD,
                n <= mheight <= MAX_PAD,
                mwidth % n == 0,
                mheight % n == 0,
                bwc == mwidth / n,
                bhc == mheight / n,
                by < bhc,
                bx <= bwc,
                geo@.len() == by * bwc + bx,
                forall|jy: int, jx: int|
                    0 <= jy < bhc && 0 <= jx < bwc && (jy < by || (jy == by && jx < bx)) ==> (
                    #[trigger] geo@[jy * bwc + jx]) == ((jx * n) as usize, (jy * n) as usize, n),
                forall|k: int|
                    0 <= k < geo@.len() ==> (#[trigger] geo@[k]).0 + geo@[k].2 <= mwidth
                        && geo@[k].1 + geo@[k].2 <= mheight && geo@[k].2 == n,
            decreases bwc - bx,
        {
            proof {
                crate::lemma_pidx_bound(bwc as int, bhc as int, bx as int, by as int);
                vstd::arithmetic::mul::lemma_mul_upper_bound(
                    bwc as int,
                    MAX_PAD as int,
                    bhc as int,
                    MAX_PAD as int,
                );
                vstd::arithmetic::div_mod::lemma_fundamental_div_mod(mwidth as int, n as int);
                vstd::arithmetic::div_mod::lemma_fundamental_div_mod(mheight as int, n as int);
                vstd::arithmetic::mul::lemma_mul_inequality(bx as int + 1, bwc as int, n as int);
                vstd::arithmetic::mul::lemma_mul_inequality(by as int + 1, bhc as int, n as int);
                vstd::arithmetic::mul::lemma_mul_is_distributive_add_other_way(
                    n as int,
                    bx as int,
                    1,
                );
                vstd::arithmetic::mul::lemma_mul_is_distributive_add_other_way(
                    n as int,
                    by as int,
                    1,
                );
                vstd::arithmetic::mul::lemma_mul_is_commutative(bwc as int, n as int);
                vstd::arithmetic::mul::lemma_mul_is_commutative(bhc as int, n as int);
            }
            geo.push((bx * n, by * n, n));
            bx = bx + 1;
            proof {
                assert forall|jy: int, jx: int|
                    0 <= jy < bhc && 0 <= jx < bwc && (jy < by || (jy == by && jx < bx)) implies (
                #[trigger] geo@[jy * bwc + jx]) == ((jx * n) as usize, (jy * n) as usize, n) by {
                    crate::lemma_pidx(bwc as int, jx, jy);
                    crate::lemma_pidx(bwc as int, bx as int - 1, by as int);
                    if !(jy == by && jx == bx - 1) {
                        crate::lemma_pidx_order(bwc as int, jx, jy, bx as int - 1, by as int);
                    }
                }
            }
        }
        proof {
            assert(by * bwc + bwc == (by + 1) * bwc) by {
                vstd::arithmetic::mul::lemma_mul_is_distributive_add_other_way(
                    bwc as int,
                    by as int,
                    1,
                );
            }
        }
        by = by + 1;
    }
    proof {
        vstd::arithmetic::mul::lemma_mul_is_commutative(bwc as int, bhc as int);
    }
    geo
}

/// The value painted at `(x, y)` after laying down the first `i` blocks
/// in order: the last block covering the pixel wins.
pub open spec fn painted(
    geo: Seq<(usize, usize, usize)>,
    blocks: Seq<Seq<i32>>,
    i: int,
    x: int,
    y: int,
) -> Option<int>
    decreases i,
{
    if i <= 0 {
        None
    } else {
        let g = geo[i - 1];
        if g.0 <= x < g.0 + g.2 && g.1 <= y < g.1 + g.2 {
            Some(blocks[i - 1][(y - g.1) * g.2 + (x - g.0)] as int)
        } else {
            painted(geo, blocks, i - 1, x, y)
        }
    }
}

/// The views of a list of blocks.
pub open spec fn block_views(bs: Seq<Vec<i32>>) -> Seq<Seq<i32>> {
    Seq::new(bs.len(), |i: int| bs[i]@)
}

/// Write a list of reconstructed blocks into a plane in order, restoring
/// the sample offset and clamping; pixels under no block keep their
/// value.
pub fn assemble_plane(
    plane: &mut Vec<u8>,
    mw: usize,
    mh: usize,
    geo: &Vec<(usize, usize, usize)>,
    blocks: &Vec<Vec<i32>>,
)
    requires
        1 <= mw <= MAX_PAD,
        1 <= mh <= MAX_PAD,
        old(plane)@.len() == mw * mh,
        blocks@.len() == geo@.len(),
        forall|k: int|
            0 <= k < geo@.len() ==> {
                let g = #[trigger] geo@[k];
                &&& g.0 + g.2 <= mw
                &&& g.1 + g.2 <= mh
                &&& 1 <= g.2 <= 512
                &&& blocks@[k]@.len() == g.2 * g.2
            },
    ensures
        final(plane)@.len() == mw * mh,
        forall|x: int, y: int|
            0 <= x < mw && 0 <= y < mh ==> (#[trigger] final(plane)@[pidx(mw as int, x, y)]) as int
                == (match painted(geo@, block_views(blocks@), geo@.len() as int, x, y) {
                Some(v) => color::clamp255(v + 128),
                None => old(plane)@[pidx(mw as int, x, y)] as int,
            }),
{
    let n = geo.len();
    let mut k: usize = 0;
    while k < n
        invariant
            1 <= mw <= MAX_PAD,
            1 <= mh <= MAX_PAD,
            plane@.len() == mw * mh,
            n == geo@.len(),
            blocks@.len() == geo@.len(),
            k <= n,
            forall|j: int|
                0 <= j < geo@.len() ==> {
                    let g = #[trigger] geo@[j];
                    &&& g.0 + g.2 <= mw
                    &&& g.1 + g.2 <= mh
                    &&& 1 <= g.2 <= 512
                    &&& blocks@[j]@.len() == g.2 * g.2
                },
            forall|x: int, y: int|
                0 <= x < mw && 0 <= y < mh ==> (#[trigger] plane@[pidx(mw as int, x, y)]) as int
                    == (match painted(geo@, block_views(blocks@), k as int, x, y) {
                    Some(v) => color::clamp255(v + 128),
                    None => old(plane)@[pidx(mw as int, x, y)] as int,
                }),
        decreases n - k,
    {
        let g = geo[k];
        let ghost entry = plane@;
        write_block(plane, mw, mh, g.0, g.1, g.2, &blocks[k]);
        k = k + 1;
        proof {
            let ki = k as int;
            assert forall|x: int, y: int| 0 <= x < mw && 0 <= y < mh implies (
            #[trigger] plane@[pidx(mw as int, x, y)]) as int == (match painted(
                geo@,
                block_views(blocks@),
                ki,
                x,
                y,
            ) {
                Some(v) => color::clamp255(v + 128),
                None => old(plane)@[pidx(mw as int, x, y)] as int,
            }) by {
                let gg = geo@[ki - 1];
                if gg.0 <= x < gg.0 + gg.2 && gg.1 <= y < gg.1 + gg.2 {
                    let xx = x - gg.0;
                    let yy = y - gg.1;
                    assert(plane@[pidx(mw as int, gg.0 + xx, gg.1 + yy)] as int == color::clamp255(
                        blocks@[ki - 1]@[yy * gg.2 + xx] as int + 128,
                    ));
                    assert(plane@[pidx(mw as int, x, y)] as int == color::clamp255(
                        blocks@[ki - 1]@[(y - gg.1) * gg.2 + (x - gg.0)] as int + 128,
                    ));
                } else {
                    assert(plane@[pidx(mw as int, x, y)] == entry[pidx(mw as int, x, y)]);
                }
            }
        }
    }
}

/// When the blocks are laid over pairwise disjoint regions, the painted
/// value of a pixel does not depend on the order the blocks were laid
/// down in: any covering block determines it, and a pixel under no block
/// is untouched. This is what makes the parallel block pass agree with
/// the serial one.
pub proof fn lemma_painted_order_free(
    geo: Seq<(usize, usize, usize)>,
    blocks: Seq<Seq<i32>>,
    i: int,
    x: int,
    y: int,
)
    requires
        0 <= i <= geo.len(),
        blocks.len() == geo.len(),
        forall|k1: int, k2: int|
            0 <= k1 < geo.len() && 0 <= k2 < geo.len() && k1 != k2 ==> !(#[trigger] geo[k1].0 <= x
                < geo[k1].0 + geo[k1].2 && geo[k1].1 <= y < geo[k1].1 + geo[k1].2
                && #[trigger] geo[k2].0 <= x < geo[k2].0 + geo[k2].2 && geo[k2].1 <= y < geo[k2].1
                + geo[k2].2),
    ensures
        forall|k: int|
            0 <= k < i && (#[trigger] geo[k]).0 <= x < geo[k].0 + geo[k].2 && geo[k].1 <= y
                < geo[k].1 + geo[k].2 ==> painted(geo, blocks, i, x, y) == Some(
                blocks[k][(y - geo[k].1) * geo[k].2 + (x - geo[k].0)] as int,
            ),
        (forall|k: int|
            0 <= k < i ==> !((#[trigger] geo[k]).0 <= x < geo[k].0 + geo[k].2 && geo[k].1 <= y
                < geo[k].1 + geo[k].2)) ==> painted(geo, blocks, i, x, y) is None,
    decreases i,
{
    if i > 0 {
        lemma_painted_order_free(geo, blocks, i - 1, x, y);
    }
}

} // verus!
