//! Adaptive quad-tree partitioning: per-region color histograms, a
//! fixed-point error metric, recursive splitting on an error threshold, and
//! rendering of the leaf regions.
use vstd::prelude::*;

use crate::mathx;
use crate::my_image::MyImage;

verus! {

/// Number of pixels with channel `c` equal to `val` in row `y`, columns
/// `x0` up to `x1`, of a packed RGB image of row length `w`.
pub open spec fn cnt_row(img: Seq<u8>, w: int, c: int, val: int, y: int, x0: int, x1: int) -> int
    decreases x1 - x0,
{
    if x0 >= x1 {
        0
    } else {
        cnt_row(img, w, c, val, y, x0, x1 - 1) + (if img[(y * w + (x1 - 1)) * 3 + c] == val {
            1int
        } else {
            0int
        })
    }
}

/// Number of pixels with channel `c` equal to `val` in the rectangle with
/// columns `x0` up to `x1` and rows `y0` up to `y1`.
pub open spec fn cnt_rect(
    img: Seq<u8>,
    w: int,
    c: int,
    val: int,
    x0: int,
    x1: int,
    y0: int,
    y1: int,
) -> int
    decreases y1 - y0,
{
    if y0 >= y1 {
        0
    } else {
        cnt_rect(img, w, c, val, x0, x1, y0, y1 - 1) + cnt_row(img, w, c, val, y1 - 1, x0, x1)
    }
}

/// The 256-bin histogram of channel `c` over a rectangle.
pub open spec fn region_hist(
    img: Seq<u8>,
    w: int,
    c: int,
    x0: int,
    x1: int,
    y0: int,
    y1: int,
) -> Seq<int> {
    Seq::new(256, |val: int| cnt_rect(img, w, c, val, x0, x1, y0, y1))
}

/// Sum of the first `k` histogram bins.
pub open spec fn sum_h(h: Seq<int>, k: int) -> int
    decreases k,
{
    if k <= 0 {
        0
    } else {
        sum_h(h, k - 1) + h[k - 1]
    }
}

/// Sum of the first `k` bins, each weighted by its bin index.
pub open spec fn sum_ih(h: Seq<int>, k: int) -> int
    decreases k,
{
    if k <= 0 {
        0
    } else {
        sum_ih(h, k - 1) + (k - 1) * h[k - 1]
    }
}

/// Sum of the first `k` bins, each weighted by its squared distance from
/// `v`.
pub open spec fn sum_sq(h: Seq<int>, v: int, k: int) -> int
    decreases k,
{
    if k <= 0 {
        0
    } else {
        sum_sq(h, v, k - 1) + h[k - 1] * ((v - (k - 1)) * (v - (k - 1)))
    }
}

/// The weighted average bin of a histogram, zero when it is empty.
pub open spec fn wavg_value(h: Seq<int>) -> int {
    if sum_h(h, 256) == 0 {
        0
    } else {
        sum_ih(h, 256) / sum_h(h, 256)
    }
}

/// The standard deviation around the weighted average, in thousandths,
/// zero when the histogram is empty.
pub open spec fn wavg_error_milli(h: Seq<int>) -> int {
    if sum_h(h, 256) == 0 {
        0
    } else {
        mathx::sqrt_floor(1000000 * sum_sq(h, wavg_value(h), 256) / sum_h(h, 256))
    }
}

/// The luma-weighted combination of the three per-channel errors, in
/// thousandths.
pub open spec fn combined_error_milli(h0: Seq<int>, h1: Seq<int>, h2: Seq<int>) -> int {
    (299 * wavg_error_milli(h0) + 587 * wavg_error_milli(h1) + 114 * wavg_error_milli(h2)) / 1000
}

/// Histogram bins are counts, so they never go negative.
proof fn lemma_cnt_row_nonneg(img: Seq<u8>, w: int, c: int, val: int, y: int, x0: int, x1: int)
    ensures
        0 <= cnt_row(img, w, c, val, y, x0, x1),
        cnt_row(img, w, c, val, y, x0, x1) <= (if x1 >= x0 {
            x1 - x0
        } else {
            0
        }),
    decreases x1 - x0,
{
    if x0 < x1 {
        lemma_cnt_row_nonneg(img, w, c, val, y, x0, x1 - 1);
    }
}

/// A rectangle count is non-negative and at most the rectangle's area.
pub proof fn lemma_cnt_rect_bounds(
    img: Seq<u8>,
    w: int,
    c: int,
    val: int,
    x0: int,
    x1: int,
    y0: int,
    y1: int,
)
    requires
        x0 <= x1,
        y0 <= y1,
    ensures
        0 <= cnt_rect(img, w, c, val, x0, x1, y0, y1),
        cnt_rect(img, w, c, val, x0, x1, y0, y1) <= (y1 - y0) * (x1 - x0),
    decreases y1 - y0,
{
    if y0 < y1 {
        lemma_cnt_rect_bounds(img, w, c, val, x0, x1, y0, y1 - 1);
        lemma_cnt_row_nonneg(img, w, c, val, y1 - 1, x0, x1);
        assert((y1 - y0) * (x1 - x0) == (y1 - 1 - y0) * (x1 - x0) + (x1 - x0)) by {
            vstd::arithmetic::mul::lemma_mul_is_distributive_add_other_way(x1 - x0, y1 - 1 - y0, 1);
        }
    }
}

/// A rectangle with no columns counts nothing, whatever its rows.
proof fn lemma_cnt_rect_empty_cols(
    img: Seq<u8>,
    w: int,
    c: int,
    val: int,
    x0: int,
    x1: int,
    y0: int,
    y1: int,
)
    requires
        x0 >= x1,
    ensures
        cnt_rect(img, w, c, val, x0, x1, y0, y1) == 0,
    decreases y1 - y0,
{
    if y0 < y1 {
        lemma_cnt_rect_empty_cols(img, w, c, val, x0, x1, y0, y1 - 1);
    }
}

/// Partial histogram sums of non-negative bins stay non-negative.
proof fn lemma_sum_h_nonneg(h: Seq<int>, k: int)
    requires
        0 <= k <= h.len(),
        forall|i: int| 0 <= i < h.len() ==> 0 <= #[trigger] h[i],
    ensures
        0 <= sum_h(h, k),
    decreases k,
{
    if k > 0 {
        lemma_sum_h_nonneg(h, k - 1);
    }
}

/// The index-weighted sum is at most 255 times the plain sum, for a
/// histogram of at most 256 bins.
proof fn lemma_sum_ih_le(h: Seq<int>, k: int)
    requires
        0 <= k <= 256,
        k <= h.len(),
        forall|i: int| 0 <= i < h.len() ==> 0 <= #[trigger] h[i],
    ensures
        0 <= sum_ih(h, k) <= 255 * sum_h(h, k),
    decreases k,
{
    if k > 0 {
        lemma_sum_ih_le(h, k - 1);
        assert((k - 1) * h[k - 1] <= 255 * h[k - 1]) by {
            vstd::arithmetic::mul::lemma_mul_inequality(k - 1, 255, h[k - 1]);
        }
        assert(0 <= (k - 1) * h[k - 1]) by {
            vstd::arithmetic::mul::lemma_mul_nonnegative(k - 1, h[k - 1]);
        }
    }
}

/// The squared-distance sum is at most `255 * 255` times the plain sum,
/// when the center lies in the byte range.
proof fn lemma_sum_sq_le(h: Seq<int>, v: int, k: int)
    requires
        0 <= k <= 256,
        k <= h.len(),
        0 <= v <= 255,
        forall|i: int| 0 <= i < h.len() ==> 0 <= #[trigger] h[i],
    ensures
        0 <= sum_sq(h, v, k) <= 65025 * sum_h(h, k),
    decreases k,
{
    if k > 0 {
        lemma_sum_sq_le(h, v, k - 1);
        let d = v - (k - 1);
        assert(0 <= d * d <= 65025) by (nonlinear_arith)
            requires
                -255 <= d <= 255,
        {}
        assert(h[k - 1] * (d * d) <= h[k - 1] * 65025) by {
            vstd::arithmetic::mul::lemma_mul_inequality(d * d, 65025, h[k - 1]);
            vstd::arithmetic::mul::lemma_mul_is_commutative(d * d, h[k - 1]);
            vstd::arithmetic::mul::lemma_mul_is_commutative(65025, h[k - 1]);
        }
        assert(0 <= h[k - 1] * (d * d)) by {
            vstd::arithmetic::mul::lemma_mul_nonnegative(h[k - 1], d * d);
        }
        assert(h[k - 1] * 65025 == 65025 * h[k - 1]) by {
            vstd::arithmetic::mul::lemma_mul_is_commutative(h[k - 1], 65025);
        }
        assert(65025 * sum_h(h, k) == 65025 * sum_h(h, k - 1) + 65025 * h[k - 1]) by {
            vstd::arithmetic::mul::lemma_mul_is_distributive_add(65025, sum_h(h, k - 1), h[k - 1]);
        }
    }
}

/// A histogram of byte counts as mathematical integers.
pub open spec fn ints(h: Seq<u32>) -> Seq<int> {
    Seq::new(h.len(), |i: int| h[i] as int)
}

/// Build the 256-bin histogram of channel `c` of a packed RGB image over
/// the rectangle with columns `x0` up to `x1` and rows `y0` up to `y1`.
fn channel_histogram(
    image: &Vec<u8>,
    w: usize,
    h: usize,
    c: usize,
    x0: usize,
    x1: usize,
    y0: usize,
    y1: usize,
) -> (hist: Vec<u32>)
    requires
        c < 3,
        1 <= w <= crate::MAX_DIM,
        1 <= h <= crate::MAX_DIM,
        x1 <= w,
        y1 <= h,
        image@.len() == w * h * 3,
    ensures
        hist@.len() == 256,
        forall|val: int|
            0 <= val < 256 ==> (#[trigger] hist@[val]) as int == cnt_rect(
                image@,
                w as int,
                c as int,
                val,
                x0 as int,
                x1 as int,
                y0 as int,
                y1 as int,
            ),
{
    let mut hist: Vec<u32> = Vec::new();
    let mut k: usize = 0;
    while k < 256
        invariant
            k <= 256,
            hist@.len() == k,
            forall|v: int| 0 <= v < k ==> (#[trigger] hist@[v]) == 0u32,
        decreases 256 - k,
    {
        hist.push(0u32);
        k = k + 1;
    }
    if x0 >= x1 || y0 >= y1 {
        proof {
            if x0 >= x1 {
                assert forall|val: int| 0 <= val < 256 implies cnt_rect(
                    image@,
                    w as int,
                    c as int,
                    val,
                    x0 as int,
                    x1 as int,
                    y0 as int,
                    y1 as int,
                ) == 0 by {
                    lemma_cnt_rect_empty_cols(
                        image@,
                        w as int,
                        c as int,
                        val,
                        x0 as int,
                        x1 as int,
                        y0 as int,
                        y1 as int,
                    );
                }
            }
        }
        return hist;
    }
    let mut y: usize = y0;
    while y < y1
        invariant
            c < 3,
            1 <= w <= crate::MAX_DIM,
            1 <= h <= crate::MAX_DIM,
            x0 < x1 <= w,
            y0 <= y <= y1 <= h,
            image@.len() == w * h * 3,
            hist@.len() == 256,
            forall|val: int|
                0 <= val < 256 ==> (#[trigger] hist@[val]) as int == cnt_rect(
                    image@,
                    w as int,
                    c as int,
                    val,
                    x0 as int,
                    x1 as int,
                    y0 as int,
                    y as int,
                ),
        decreases y1 - y,
    {
        let mut x: usize = x0;
        while x < x1
            invariant
                c < 3,
                1 <= w <= crate::MAX_DIM,
                1 <= h <= crate::MAX_DIM,
                x0 <= x <= x1 <= w,
                y0 <= y < y1 <= h,
                image@.len() == w * h * 3,
                hist@.len() == 256,
                forall|val: int|
                    0 <= val < 256 ==> (#[trigger] hist@[val]) as int == cnt_rect(
                        image@,
                        w as int,
                        c as int,
                        val,
                        x0 as int,
                        x1 as int,
                        y0 as int,
                        y as int,
                    ) + cnt_row(image@, w as int, c as int, val, y as int, x0 as int, x as int),
            decreases x1 - x,
        {
            proof {
                crate::lemma_pidx_bound(w as int, h as int, x as int, y as int);
                vstd::arithmetic::mul::lemma_mul_upper_bound(
                    (y * w + x + 1) as int,
                    (w * h) as int,
                    3,
                    3,
                );
                vstd::arithmetic::mul::lemma_mul_inequality(
                    (y * w + x + 1) as int,
                    (w * h) as int,
                    3,
                );
                vstd::arithmetic::mul::lemma_mul_upper_bound(
                    w as int,
                    crate::MAX_DIM as int,
                    h as int,
                    crate::MAX_DIM as int,
                );
                lemma_cnt_rect_bounds(
                    image@,
                    w as int,
                    c as int,
                    image@[((y * w + x) * 3 + c) as int] as int,
                    x0 as int,
                    x1 as int,
                    y0 as int,
                    y as int,
                );
                lemma_cnt_row_nonneg(
                    image@,
                    w as int,
                    c as int,
                    image@[((y * w + x) * 3 + c) as int] as int,
                    y as int,
                    x0 as int,
                    x as int,
                );
                vstd::arithmetic::mul::lemma_mul_upper_bound(
                    (y as int) - (y0 as int),
                    crate::MAX_DIM as int,
                    (x1 as int) - (x0 as int),
                    crate::MAX_DIM as int,
                );
            }
            let b = image[(y * w + x) * 3 + c] as usize;
            let old_count = hist[b];
            hist[b] = old_count + 1;
            x = x + 1;
        }
        y = y + 1;
    }
    hist
}

/// The weighted average bin of a histogram and the standard deviation
/// around it in thousandths; an empty histogram gives zero for both.
pub fn weighted_average(histogram: &Vec<u32>) -> (res: (u8, u64))
    requires
        histogram@.len() == 256,
    ensures
        res.0 as int == wavg_value(ints(histogram@)),
        res.1 as int == wavg_error_milli(ints(histogram@)),
        res.1 <= 255000,
{
    let ghost hs = ints(histogram@);
    let mut total: u64 = 0;
    let mut sumih: u64 = 0;
    let mut k: usize = 0;
    while k < 256
        invariant
            histogram@.len() == 256,
            hs == ints(histogram@),
            k <= 256,
            total as int == sum_h(hs, k as int),
            sumih as int == sum_ih(hs, k as int),
            total <= (k as u64) * 0x1_0000_0000,
            sumih <= (k as u64) * 0x100_0000_0000,
        decreases 256 - k,
    {
        proof {
            vstd::arithmetic::mul::lemma_mul_upper_bound(
                k as int,
                255,
                histogram@[k as int] as int,
                0xffff_ffff,
            );
        }
        total = total + (histogram[k] as u64);
        sumih = sumih + (k as u64) * (histogram[k] as u64);
        k = k + 1;
    }
    if total == 0 {
        (0u8, 0u64)
    } else {
        proof {
            lemma_sum_ih_le(hs, 256);
            vstd::arithmetic::div_mod::lemma_div_is_ordered(
                sumih as int,
                255 * total as int,
                total as int,
            );
            vstd::arithmetic::div_mod::lemma_div_by_multiple(255, total as int);
            vstd::arithmetic::mul::lemma_mul_is_commutative(255, total as int);
            vstd::arithmetic::div_mod::lemma_div_basics_4(sumih as int, total as int);
        }
        let v = sumih / total;
        let mut s: u64 = 0;
        let mut k2: usize = 0;
        while k2 < 256
            invariant
                histogram@.len() == 256,
                hs == ints(histogram@),
                k2 <= 256,
                v <= 255,
                s as int == sum_sq(hs, v as int, k2 as int),
                s <= (k2 as u64) * 0x1_0000_0000_0000,
            decreases 256 - k2,
        {
            let d: u64 = if v >= (k2 as u64) {
                v - (k2 as u64)
            } else {
                (k2 as u64) - v
            };
            proof {
                vstd::arithmetic::mul::lemma_mul_upper_bound(d as int, 255, d as int, 255);
                assert((d as int) * (d as int) == (v as int - k2 as int) * (v as int - k2 as int)
                    && (d as int) * (d as int) <= 65025) by (nonlinear_arith)
                    requires
                        0 <= d <= 255,
                        d as int == (if v as int >= k2 as int {
                            v as int - k2 as int
                        } else {
                            k2 as int - v as int
                        }),
                {}
                vstd::arithmetic::mul::lemma_mul_upper_bound(
                    histogram@[k2 as int] as int,
                    0xffff_ffff,
                    (d * d) as int,
                    65025,
                );
            }
            s = s + (histogram[k2] as u64) * (d * d);
            k2 = k2 + 1;
        }
        proof {
            lemma_sum_sq_le(hs, v as int, 256);
            lemma_sum_h_nonneg(hs, 256);
            vstd::arithmetic::div_mod::lemma_div_is_ordered(
                1000000 * s as int,
                1000000 * 65025 * total as int,
                total as int,
            );
            vstd::arithmetic::div_mod::lemma_div_by_multiple(65025000000, total as int);
            vstd::arithmetic::mul::lemma_mul_is_commutative(65025000000, total as int);
            vstd::arithmetic::div_mod::lemma_div_basics_4(1000000 * s as int, total as int);
            assert(1000000 * (65025 * (total as int)) == 65025000000 * (total as int)) by {
                vstd::arithmetic::mul::lemma_mul_is_associative(1000000, 65025, total as int);
            }
            assert(1000000 * s as int <= 1000000 * (65025 * (total as int))) by {
                vstd::arithmetic::mul::lemma_mul_inequality(
                    s as int,
                    65025 * total as int,
                    1000000,
                );
                vstd::arithmetic::mul::lemma_mul_is_commutative(s as int, 1000000);
                vstd::arithmetic::mul::lemma_mul_is_commutative(65025 * total as int, 1000000);
            }
        }
        let q128: u128 = (1000000u128 * (s as u128)) / (total as u128);
        let e = crate::mathx::isqrt_u64(q128 as u64);
        proof {
            if e > 255000 {
                vstd::arithmetic::mul::lemma_mul_inequality(255001, e as int, 255001);
                vstd::arithmetic::mul::lemma_mul_inequality(255001, e as int, e as int);
            }
        }
        (v as u8, e)
    }
}

/// The luma-weighted error of a region and its representative color, from
/// the three per-channel histograms.
pub fn color_from_histogram(h0: &Vec<u32>, h1: &Vec<u32>, h2: &Vec<u32>) -> (res: (u64, [u8; 3]))
    requires
        h0@.len() == 256,
        h1@.len() == 256,
        h2@.len() == 256,
    ensures
        res.0 as int == combined_error_milli(ints(h0@), ints(h1@), ints(h2@)),
        res.0 <= 255000,
        res.1@[0] as int == wavg_value(ints(h0@)),
        res.1@[1] as int == wavg_value(ints(h1@)),
        res.1@[2] as int == wavg_value(ints(h2@)),
{
    let (r, r_error) = weighted_average(h0);
    let (g, g_error) = weighted_average(h1);
    let (b, b_error) = weighted_average(h2);
    let error_calc = (299 * r_error + 587 * g_error + 114 * b_error) / 1000;
    (error_calc, [r, g, b])
}

/// The block sizes the codec accepts: the powers of two from 2 to 512.
pub open spec fn accepted_block_size(n: int) -> bool {
    n == 2 || n == 4 || n == 8 || n == 16 || n == 32 || n == 64 || n == 128 || n == 256 || n == 512
}

/// Decide whether a size is one of the accepted block sizes.
pub fn is_accepted_block_size(n: usize) -> (r: bool)
    ensures
        r == accepted_block_size(n as int),
{
    n == 2 || n == 4 || n == 8 || n == 16 || n == 32 || n == 64 || n == 128 || n == 256 || n == 512
}

/// Every accepted block size is a power of two.
pub proof fn lemma_accepted_is_pow2(n: int)
    requires
        accepted_block_size(n),
    ensures
        mathx::is_pow2(n),
{
    vstd::arithmetic::power2::lemma2_to64();
    if n == 2 {
        assert(n == vstd::arithmetic::power2::pow2(1));
    } else if n == 4 {
        assert(n == vstd::arithmetic::power2::pow2(2));
    } else if n == 8 {
        assert(n == vstd::arithmetic::power2::pow2(3));
    } else if n == 16 {
        assert(n == vstd::arithmetic::power2::pow2(4));
    } else if n == 32 {
        assert(n == vstd::arithmetic::power2::pow2(5));
    } else if n == 64 {
        assert(n == vstd::arithmetic::power2::pow2(6));
    } else if n == 128 {
        assert(n == vstd::arithmetic::power2::pow2(7));
    } else if n == 256 {
        assert(n == vstd::arithmetic::power2::pow2(8));
    } else {
        assert(n == vstd::arithmetic::power2::pow2(9));
    }
}

/// Configuration of the quad-tree partitioner.
pub struct QuadTree {
    /// Depth beyond which error-driven splitting stops.
    pub max_depth: u32,
    /// Smallest leaf size the error rule may produce.
    pub min_size: usize,
    /// Largest allowed leaf size; bigger regions always split.
    pub max_size: usize,
    /// Whether the root is padded to a power-of-two square.
    pub use_pow_2: bool,
    /// Whether leaf borders are drawn over the output image.
    pub use_draw_line: bool,
    /// Error threshold in thousandths; regions at or above it split.
    pub threshold_error_milli: u64,
}

impl QuadTree {
    /// The size limits are accepted block sizes in order.
    pub open spec fn wf(self) -> bool {
        &&& accepted_block_size(self.min_size as int)
        &&& accepted_block_size(self.max_size as int)
        &&& self.min_size <= self.max_size
    }

    /// Create a quad-tree configuration.
    pub fn new(
        max_depth: u32,
        min_size: usize,
        max_size: usize,
        use_pow_2: bool,
        use_draw_line: bool,
        threshold_error_milli: u64,
    ) -> (qt: QuadTree)
        requires
            accepted_block_size(min_size as int),
            accepted_block_size(max_size as int),
            min_size <= max_size,
        ensures
            qt.wf(),
            qt.max_depth == max_depth,
            qt.min_size == min_size,
            qt.max_size == max_size,
            qt.use_pow_2 == use_pow_2,
            qt.use_draw_line == use_draw_line,
            qt.threshold_error_milli == threshold_error_milli,
    {
        QuadTree { max_depth, min_size, max_size, use_pow_2, use_draw_line, threshold_error_milli }
    }
}

/// A region of the image considered by the partitioner; leaves of the tree
/// become codec work items.
pub struct QuadNode {
    /// Representative color of the region.
    pub rgb: [u8; 3],
    /// Combined color error of the region, in thousandths.
    pub error_milli: u64,
    /// Depth of the node in the tree.
    pub depth: u32,
    /// Top edge, inclusive.
    pub box_top: usize,
    /// Left edge, inclusive.
    pub box_left: usize,
    /// Right edge, exclusive.
    pub box_right: usize,
    /// Bottom edge, exclusive.
    pub box_bottom: usize,
    /// Width of the region.
    pub width_block_size: usize,
    /// Height of the region.
    pub height_block_size: usize,
}

impl QuadNode {
    /// The stored sizes agree with the box and everything stays within the
    /// supported coordinate range.
    pub open spec fn geom_wf(self) -> bool {
        &&& self.box_left <= self.box_right <= 2 * crate::MAX_DIM
        &&& self.box_top <= self.box_bottom <= 2 * crate::MAX_DIM
        &&& self.width_block_size == self.box_right - self.box_left
        &&& self.height_block_size == self.box_bottom - self.box_top
    }

    /// The node's color statistics are those of its region on the image,
    /// clipped to the displayed area as the histogram pass reads it.
    pub open spec fn stats_ok(self, img: Seq<u8>, w: int, h: int) -> bool {
        let x1 = if self.box_right >= w {
            w - 1
        } else {
            self.box_right as int
        };
        let y1 = if self.box_bottom >= h {
            h - 1
        } else {
            self.box_bottom as int
        };
        let h0 = region_hist(img, w, 0, self.box_left as int, x1, self.box_top as int, y1);
        let h1 = region_hist(img, w, 1, self.box_left as int, x1, self.box_top as int, y1);
        let h2 = region_hist(img, w, 2, self.box_left as int, x1, self.box_top as int, y1);
        &&& self.error_milli as int == combined_error_milli(h0, h1, h2)
        &&& self.rgb@[0] as int == wavg_value(h0)
        &&& self.rgb@[1] as int == wavg_value(h1)
        &&& self.rgb@[2] as int == wavg_value(h2)
    }

    /// Build a node over a region: measure its color statistics on the
    /// current output image, clipped to the displayed area.
    pub fn new(
        my_image: &MyImage,
        box_left: usize,
        box_top: usize,
        box_right: usize,
        box_bottom: usize,
        depth: u32,
    ) -> (node: QuadNode)
        requires
            my_image.wf(),
            my_image.final_image@.len() == my_image.width * my_image.height * 3,
            box_left <= box_right <= 2 * crate::MAX_DIM,
            box_top <= box_bottom <= 2 * crate::MAX_DIM,
        ensures
            node.geom_wf(),
            node.stats_ok(
                my_image.final_image@,
                my_image.width as int,
                my_image.height as int,
            ),
            node.box_left == box_left,
            node.box_top == box_top,
            node.box_right == box_right,
            node.box_bottom == box_bottom,
            node.depth == depth,
            node.width_block_size == box_right - box_left,
            node.height_block_size == box_bottom - box_top,
    {
        let w = my_image.width;
        let h = my_image.height;
        let x1 = if box_right >= w {
            w - 1
        } else {
            box_right
        };
        let y1 = if box_bottom >= h {
            h - 1
        } else {
            box_bottom
        };
        let h0 = channel_histogram(&my_image.final_image, w, h, 0, box_left, x1, box_top, y1);
        let h1 = channel_histogram(&my_image.final_image, w, h, 1, box_left, x1, box_top, y1);
        let h2 = channel_histogram(&my_image.final_image, w, h, 2, box_left, x1, box_top, y1);
        let (error_milli, rgb) = color_from_histogram(&h0, &h1, &h2);
        proof {
            lemma_ints_region(my_image.final_image@, w as int, 0, box_left as int, x1 as int, box_top as int, y1 as int, h0@);
            lemma_ints_region(my_image.final_image@, w as int, 1, box_left as int, x1 as int, box_top as int, y1 as int, h1@);
            lemma_ints_region(my_image.final_image@, w as int, 2, box_left as int, x1 as int, box_top as int, y1 as int, h2@);
        }
        QuadNode {
            rgb,
            error_milli,
            depth,
            box_top,
            box_left,
            box_right,
            box_bottom,
            width_block_size: box_right - box_left,
            height_block_size: box_bottom - box_top,
        }
    }
}

/// An executable histogram that matches the spec counts bin by bin equals
/// the spec histogram as a sequence.
proof fn lemma_ints_region(
    img: Seq<u8>,
    w: int,
    c: int,
    x0: int,
    x1: int,
    y0: int,
    y1: int,
    hist: Seq<u32>,
)
    requires
        hist.len() == 256,
        forall|val: int|
            0 <= val < 256 ==> (#[trigger] hist[val]) as int == cnt_rect(
                img,
                w,
                c,
                val,
                x0,
                x1,
                y0,
                y1,
            ),
    ensures
        ints(hist) == region_hist(img, w, c, x0, x1, y0, y1),
{
    assert(ints(hist) =~= region_hist(img, w, c, x0, x1, y0, y1));
}

/// Whether a pixel lies inside a node's region.
pub open spec fn node_contains(n: QuadNode, x: int, y: int) -> bool {
    n.box_left <= x < n.box_right && n.box_top <= y < n.box_bottom
}

/// Whether a node's region lies inside the given box.
pub open spec fn node_within(n: QuadNode, left: int, top: int, right: int, bottom: int) -> bool {
    left <= n.box_left && n.box_right <= right && top <= n.box_top && n.box_bottom <= bottom
}

/// The rule that splits a region into four: oversized regions always
/// split; otherwise a region splits while the depth budget lasts, its
/// error reaches the threshold, and it is still bigger than the minimum.
pub open spec fn split_rule(qt: QuadTree, n: QuadNode) -> bool {
    (n.width_block_size > qt.max_size && n.height_block_size > qt.max_size) || (n.depth
        <= qt.max_depth && n.error_milli >= qt.threshold_error_milli && n.width_block_size
        > qt.min_size && n.height_block_size > qt.min_size)
}

/// The leaves appended between `a` and `b` tile the box of `n`: they lie
/// inside it, they cover all of it, and they do not overlap.
pub open spec fn leaves_tile(list: Seq<QuadNode>, a: int, b: int, n: QuadNode) -> bool {
    &&& a <= b <= list.len()
    &&& forall|k: int|
        a <= k < b ==> node_within(
            #[trigger] list[k],
            n.box_left as int,
            n.box_top as int,
            n.box_right as int,
            n.box_bottom as int,
        )
    &&& forall|x: int, y: int|
        node_contains(n, x, y) ==> exists|k: int| a <= k < b && node_contains(#[trigger] list[k], x, y)
    &&& forall|k1: int, k2: int, x: int, y: int|
        a <= k1 < b && a <= k2 < b && #[trigger] node_contains(list[k1], x, y)
            && #[trigger] node_contains(list[k2], x, y) ==> k1 == k2
}

/// No appended leaf still satisfies the split rule: a region the rule
/// would divide never reaches the leaf list.
pub open spec fn leaves_no_split(list: Seq<QuadNode>, a: int, b: int, qt: QuadTree) -> bool {
    forall|k: int| a <= k < b ==> !split_rule(qt, #[trigger] list[k])
}

/// Every appended leaf is well formed and carries the statistics of its
/// region.
pub open spec fn leaves_sound(
    list: Seq<QuadNode>,
    a: int,
    b: int,
    img: Seq<u8>,
    w: int,
    h: int,
) -> bool {
    forall|k: int|
        a <= k < b ==> (#[trigger] list[k]).geom_wf() && list[k].stats_ok(img, w, h)
}

/// When the start region is a power-of-two square, so is every leaf, no
/// leaf exceeds the maximum size, and none goes below the minimum as long
/// as the start region itself did not.
pub open spec fn leaves_pow2_sizes(
    list: Seq<QuadNode>,
    a: int,
    b: int,
    n: QuadNode,
    qt: QuadTree,
) -> bool {
    (n.width_block_size == n.height_block_size && mathx::is_pow2(n.width_block_size as int))
        ==> forall|k: int|
        a <= k < b ==> {
            let L = #[trigger] list[k];
            &&& L.width_block_size == L.height_block_size
            &&& mathx::is_pow2(L.width_block_size as int)
            &&& L.width_block_size <= qt.max_size
            &&& (n.width_block_size >= qt.min_size ==> L.width_block_size >= qt.min_size)
        }
}

/// Recursively partition a region, appending its leaves to the list in
/// depth-first order. A region that the split rule passes over becomes a
/// leaf itself.
pub fn build_tree(
    quad_tree: &QuadTree,
    quad_node: QuadNode,
    quad_node_list: &mut Vec<QuadNode>,
    my_image: &MyImage,
)
    requires
        quad_tree.wf(),
        my_image.wf(),
        my_image.final_image@.len() == my_image.width * my_image.height * 3,
        quad_node.geom_wf(),
        quad_node.stats_ok(my_image.final_image@, my_image.width as int, my_image.height as int),
        quad_node.width_block_size >= 1,
        quad_node.height_block_size >= 1,
        quad_node.depth as int + quad_node.width_block_size as int <= 0xffff_ffff,
    ensures
        final(quad_node_list)@.len() >= old(quad_node_list)@.len(),
        forall|k: int|
            0 <= k < old(quad_node_list)@.len() ==> final(quad_node_list)@[k] == old(
                quad_node_list,
            )@[k],
        leaves_tile(
            final(quad_node_list)@,
            old(quad_node_list)@.len() as int,
            final(quad_node_list)@.len() as int,
            quad_node,
        ),
        leaves_sound(
            final(quad_node_list)@,
            old(quad_node_list)@.len() as int,
            final(quad_node_list)@.len() as int,
            my_image.final_image@,
            my_image.width as int,
            my_image.height as int,
        ),
        leaves_pow2_sizes(
            final(quad_node_list)@,
            old(quad_node_list)@.len() as int,
            final(quad_node_list)@.len() as int,
            quad_node,
            *quad_tree,
        ),
        leaves_no_split(
            final(quad_node_list)@,
            old(quad_node_list)@.len() as int,
            final(quad_node_list)@.len() as int,
            *quad_tree,
        ),
        !split_rule(*quad_tree, quad_node) ==> final(quad_node_list)@ == old(
            quad_node_list,
        )@.push(quad_node),
    decreases quad_node.width_block_size + quad_node.height_block_size,
{
    let w = quad_node.width_block_size;
    let h = quad_node.height_block_size;
    let should_split = (w > quad_tree.max_size && h > quad_tree.max_size) || (quad_node.depth
        <= quad_tree.max_depth && quad_node.error_milli >= quad_tree.threshold_error_milli && w
        > quad_tree.min_size && h > quad_tree.min_size);
    if should_split {
        let ghost n = quad_node;
        let ghost qt = *quad_tree;
        let ghost img = my_image.final_image@;
        let ghost iw = my_image.width as int;
        let ghost ih = my_image.height as int;
        proof {
            if n.width_block_size == n.height_block_size && mathx::is_pow2(
                n.width_block_size as int,
            ) {
                mathx::lemma_pow2_halves(n.width_block_size as int);
            }
        }
        let left_right = quad_node.box_left + w / 2;
        let top_bottom = quad_node.box_top + h / 2;
        let tl = QuadNode::new(
            my_image,
            quad_node.box_left,
            quad_node.box_top,
            left_right,
            top_bottom,
            quad_node.depth + 1,
        );
        let tr = QuadNode::new(
            my_image,
            left_right,
            quad_node.box_top,
            quad_node.box_right,
            top_bottom,
            quad_node.depth + 1,
        );
        let bl = QuadNode::new(
            my_image,
            quad_node.box_left,
            top_bottom,
            left_right,
            quad_node.box_bottom,
            quad_node.depth + 1,
        );
        let br = QuadNode::new(
            my_image,
            left_right,
            top_bottom,
            quad_node.box_right,
            quad_node.box_bottom,
            quad_node.depth + 1,
        );
        let ghost len0 = quad_node_list@.len() as int;
        let ghost ntl = tl;
        let ghost ntr = tr;
        let ghost nbl = bl;
        let ghost nbr = br;
        build_tree(quad_tree, tl, quad_node_list, my_image);
        let ghost l1 = quad_node_list@;
        let ghost len1 = quad_node_list@.len() as int;
        build_tree(quad_tree, tr, quad_node_list, my_image);
        let ghost l2 = quad_node_list@;
        let ghost len2 = quad_node_list@.len() as int;
        build_tree(quad_tree, bl, quad_node_list, my_image);
        let ghost l3 = quad_node_list@;
        let ghost len3 = quad_node_list@.len() as int;
        build_tree(quad_tree, br, quad_node_list, my_image);
        proof {
            let len4 = quad_node_list@.len() as int;
            let list = quad_node_list@;
            assert forall|k: int| len0 <= k < len1 implies l1[k] == list[k] by {}
            assert forall|k: int| len1 <= k < len2 implies l2[k] == list[k] by {}
            assert forall|k: int| len2 <= k < len3 implies l3[k] == list[k] by {}
            lemma_seg_transport(l1, list, len0, len1, ntl, img, iw, ih, qt);
            lemma_seg_transport(l2, list, len1, len2, ntr, img, iw, ih, qt);
            lemma_seg_transport(l3, list, len2, len3, nbl, img, iw, ih, qt);
            lemma_combine_quadrants(
                list,
                len0,
                len1,
                len2,
                len3,
                len4,
                n,
                ntl,
                ntr,
                nbl,
                nbr,
                qt,
            );
            assert forall|k: int| len0 <= k < len4 implies !split_rule(
                qt,
                #[trigger] list[k],
            ) by {}
        }
    } else {
        quad_node_list.push(quad_node);
        proof {
            let list = quad_node_list@;
            let a = old(quad_node_list)@.len() as int;
            assert(list[a] == quad_node);
            assert(!split_rule(*quad_tree, quad_node));
            assert forall|x: int, y: int| node_contains(quad_node, x, y) implies exists|k: int|
                a <= k < a + 1 && node_contains(#[trigger] list[k], x, y) by {
                assert(node_contains(list[a], x, y));
            }
        }
    }
}

/// Facts about a finished segment of the leaf list survive later
/// appends, which leave the segment's entries untouched.
proof fn lemma_seg_transport(
    l1: Seq<QuadNode>,
    l2: Seq<QuadNode>,
    a: int,
    b: int,
    n: QuadNode,
    img: Seq<u8>,
    w: int,
    h: int,
    qt: QuadTree,
)
    requires
        0 <= a <= b <= l1.len(),
        b <= l2.len(),
        forall|k: int| a <= k < b ==> l1[k] == l2[k],
        leaves_tile(l1, a, b, n),
        leaves_sound(l1, a, b, img, w, h),
        leaves_pow2_sizes(l1, a, b, n, qt),
        leaves_no_split(l1, a, b, qt),
    ensures
        leaves_tile(l2, a, b, n),
        leaves_sound(l2, a, b, img, w, h),
        leaves_pow2_sizes(l2, a, b, n, qt),
        leaves_no_split(l2, a, b, qt),
{
    assert forall|k: int| a <= k < b implies !split_rule(qt, #[trigger] l2[k]) by {
        assert(l1[k] == l2[k]);
    }
    assert forall|x: int, y: int| node_contains(n, x, y) implies exists|k: int|
        a <= k < b && node_contains(#[trigger] l2[k], x, y) by {
        let k = choose|k: int| a <= k < b && node_contains(#[trigger] l1[k], x, y);
        assert(node_contains(l2[k], x, y));
    }
    assert forall|k1: int, k2: int, x: int, y: int|
        a <= k1 < b && a <= k2 < b && #[trigger] node_contains(l2[k1], x, y)
            && #[trigger] node_contains(l2[k2], x, y) implies k1 == k2 by {
        assert(node_contains(l1[k1], x, y));
        assert(node_contains(l1[k2], x, y));
    }
    assert forall|k: int| a <= k < b implies node_within(
        #[trigger] l2[k],
        n.box_left as int,
        n.box_top as int,
        n.box_right as int,
        n.box_bottom as int,
    ) by {
        assert(l1[k] == l2[k]);
    }
    assert forall|k: int| a <= k < b implies (#[trigger] l2[k]).geom_wf() && l2[k].stats_ok(
        img,
        w,
        h,
    ) by {
        assert(l1[k] == l2[k]);
    }
    if n.width_block_size == n.height_block_size && mathx::is_pow2(n.width_block_size as int) {
        assert forall|k: int| a <= k < b implies {
            let L = #[trigger] l2[k];
            &&& L.width_block_size == L.height_block_size
            &&& mathx::is_pow2(L.width_block_size as int)
            &&& L.width_block_size <= qt.max_size
            &&& (n.width_block_size >= qt.min_size ==> L.width_block_size >= qt.min_size)
        } by {
            assert(l1[k] == l2[k]);
        }
    }
}

/// The leaves of the four quadrants of a split region together tile the
/// region, and inherit its soundness and size properties.
proof fn lemma_combine_quadrants(
    list: Seq<QuadNode>,
    len0: int,
    len1: int,
    len2: int,
    len3: int,
    len4: int,
    n: QuadNode,
    tl: QuadNode,
    tr: QuadNode,
    bl: QuadNode,
    br: QuadNode,
    qt: QuadTree,
)
    requires
        n.geom_wf(),
        tl.geom_wf(),
        tr.geom_wf(),
        bl.geom_wf(),
        br.geom_wf(),
        0 <= len0 <= len1 <= len2 <= len3 <= len4 <= list.len(),
        tl.box_left == n.box_left && tl.box_top == n.box_top,
        tl.box_right == n.box_left + n.width_block_size / 2,
        tl.box_bottom == n.box_top + n.height_block_size / 2,
        tr.box_left == tl.box_right && tr.box_top == n.box_top,
        tr.box_right == n.box_right && tr.box_bottom == tl.box_bottom,
        bl.box_left == n.box_left && bl.box_top == tl.box_bottom,
        bl.box_right == tl.box_right && bl.box_bottom == n.box_bottom,
        br.box_left == tl.box_right && br.box_top == tl.box_bottom,
        br.box_right == n.box_right && br.box_bottom == n.box_bottom,
        leaves_tile(list, len0, len1, tl),
        leaves_tile(list, len1, len2, tr),
        leaves_tile(list, len2, len3, bl),
        leaves_tile(list, len3, len4, br),
        leaves_pow2_sizes(list, len0, len1, tl, qt),
        leaves_pow2_sizes(list, len1, len2, tr, qt),
        leaves_pow2_sizes(list, len2, len3, bl, qt),
        leaves_pow2_sizes(list, len3, len4, br, qt),
        qt.wf(),
        (n.width_block_size > qt.max_size && n.height_block_size > qt.max_size) || (
        n.width_block_size > qt.min_size && n.height_block_size > qt.min_size),
    ensures
        leaves_tile(list, len0, len4, n),
        leaves_pow2_sizes(list, len0, len4, n, qt),
{
    let mx = tl.box_right as int;
    let my = tl.box_bottom as int;
    assert forall|x: int, y: int| node_contains(n, x, y) implies exists|k: int|
        len0 <= k < len4 && node_contains(#[trigger] list[k], x, y) by {
        if x < mx && y < my {
            assert(node_contains(tl, x, y));
            let k = choose|k: int| len0 <= k < len1 && node_contains(#[trigger] list[k], x, y);
            assert(len0 <= k < len4 && node_contains(list[k], x, y));
        } else if x >= mx && y < my {
            assert(node_contains(tr, x, y));
            let k = choose|k: int| len1 <= k < len2 && node_contains(#[trigger] list[k], x, y);
            assert(len0 <= k < len4 && node_contains(list[k], x, y));
        } else if x < mx && y >= my {
            assert(node_contains(bl, x, y));
            let k = choose|k: int| len2 <= k < len3 && node_contains(#[trigger] list[k], x, y);
            assert(len0 <= k < len4 && node_contains(list[k], x, y));
        } else {
            assert(node_contains(br, x, y));
            let k = choose|k: int| len3 <= k < len4 && node_contains(#[trigger] list[k], x, y);
            assert(len0 <= k < len4 && node_contains(list[k], x, y));
        }
    }
    assert forall|k1: int, k2: int, x: int, y: int|
        len0 <= k1 < len4 && len0 <= k2 < len4 && #[trigger] node_contains(list[k1], x, y)
            && #[trigger] node_contains(list[k2], x, y) implies k1 == k2 by {
        if k1 < len1 {
            assert(x < mx && y < my);
        } else if k1 < len2 {
            assert(x >= mx && y < my);
        } else if k1 < len3 {
            assert(x < mx && y >= my);
        } else {
            assert(x >= mx && y >= my);
        }
        if k2 < len1 {
            assert(x < mx && y < my);
        } else if k2 < len2 {
            assert(x >= mx && y < my);
        } else if k2 < len3 {
            assert(x < mx && y >= my);
        } else {
            assert(x >= mx && y >= my);
        }
    }
    if n.width_block_size == n.height_block_size && mathx::is_pow2(n.width_block_size as int) {
        let s = n.width_block_size as int;
        mathx::lemma_pow2_halves(s);
        lemma_accepted_is_pow2(qt.min_size as int);
        assert(s > qt.min_size);
        mathx::lemma_pow2_double_gap(qt.min_size as int, s);
        assert(s / 2 >= qt.min_size);
        assert forall|k: int| len0 <= k < len4 implies {
            let L = #[trigger] list[k];
            &&& L.width_block_size == L.height_block_size
            &&& mathx::is_pow2(L.width_block_size as int)
            &&& L.width_block_size <= qt.max_size
            &&& (n.width_block_size >= qt.min_size ==> L.width_block_size >= qt.min_size)
        } by {}
    }
}

/// Flat index of channel `c` of pixel `(x, y)` in a packed RGB image.
pub open spec fn px(w: int, x: int, y: int, c: int) -> int {
    (y * w + x) * 3 + c
}

/// Distinct pixel channels map to distinct flat indices, all in bounds.
proof fn lemma_px_facts(w: int, h: int, x: int, y: int, c: int)
    requires
        1 <= w,
        1 <= h,
        0 <= x < w,
        0 <= y < h,
        0 <= c < 3,
    ensures
        0 <= px(w, x, y, c) < w * h * 3,
        (px(w, x, y, c)) / 3 == y * w + x,
        (px(w, x, y, c)) % 3 == c,
        (y * w + x) / w == y,
        (y * w + x) % w == x,
{
    crate::lemma_pidx(w, x, y);
    crate::lemma_pidx_bound(w, h, x, y);
    vstd::arithmetic::div_mod::lemma_fundamental_div_mod_converse(
        (y * w + x) * 3 + c,
        3,
        y * w + x,
        c,
    );
    vstd::arithmetic::mul::lemma_mul_inequality(y * w + x + 1, w * h, 3);
    assert((y * w + x + 1) * 3 == (y * w + x) * 3 + 3) by {
        vstd::arithmetic::mul::lemma_mul_is_distributive_add_other_way(3, y * w + x, 1);
    }
    assert((w * h) * 3 == w * h * 3);
}

/// Whether `(xx, yy)` lies on the one-pixel segment from `(x1, y1)` to
/// `(x2, y2)`, which must be vertical or horizontal as the line drawer
/// draws it.
pub open spec fn on_line_seg(x1: int, y1: int, x2: int, y2: int, xx: int, yy: int) -> bool {
    ||| (x1 == x2 && xx == x1 && y1 <= yy <= y2)
    ||| (x1 != x2 && y1 == y2 && yy == y1 && x1 <= xx <= x2)
}

/// Whether `(xx, yy)` lies on the border of the rectangle with corners
/// `(x1, y1)` and `(x2, y2)`, both inclusive.
pub open spec fn on_rect_border(x1: int, y1: int, x2: int, y2: int, xx: int, yy: int) -> bool {
    ||| on_line_seg(x1, y1, x2, y1, xx, yy)
    ||| on_line_seg(x1, y2, x2, y2, xx, yy)
    ||| on_line_seg(x1, y1, x1, y2, xx, yy)
    ||| on_line_seg(x2, y1, x2, y2, xx, yy)
}

/// Draw a one-pixel mid-gray line between two points of the image; only
/// vertical and horizontal lines are drawn, anything else is left alone.
pub fn draw_line(
    image: &mut Vec<u8>,
    width: usize,
    height: usize,
    x1: usize,
    y1: usize,
    x2: usize,
    y2: usize,
)
    requires
        1 <= width <= crate::MAX_DIM,
        1 <= height <= crate::MAX_DIM,
        old(image)@.len() == width * height * 3,
        x1 <= x2 < width,
        y1 <= y2 < height,
    ensures
        final(image)@.len() == old(image)@.len(),
        forall|xx: int, yy: int, c: int|
            0 <= xx < width && 0 <= yy < height && 0 <= c < 3 ==> (#[trigger] final(image)@[px(width as int, xx, yy, c)]) == (if on_line_seg(
                x1 as int,
                y1 as int,
                x2 as int,
                y2 as int,
                xx,
                yy,
            ) {
                128u8
            } else {
                old(image)@[px(width as int, xx, yy, c)]
            }),
{
    if x2 - x1 == 0 {
        let mut y: usize = y1;
        while y <= y2
            invariant
                1 <= width <= crate::MAX_DIM,
                1 <= height <= crate::MAX_DIM,
                image@.len() == width * height * 3,
                x1 == x2,
                x1 <= x2 < width,
                y1 <= y <= y2 + 1,
                y2 < height,
                forall|xx: int, yy: int, c: int|
                    0 <= xx < width && 0 <= yy < height && 0 <= c < 3 ==> (#[trigger] image@[px(
                        width as int,
                        xx,
                        yy,
                        c,
                    )]) == (if xx == x1 && y1 <= yy < y {
                        128u8
                    } else {
                        old(image)@[px(width as int, xx, yy, c)]
                    }),
            decreases y2 + 1 - y,
        {
            proof {
                vstd::arithmetic::mul::lemma_mul_upper_bound(
                    width as int,
                    crate::MAX_DIM as int,
                    height as int,
                    crate::MAX_DIM as int,
                );
                lemma_px_facts(width as int, height as int, x1 as int, y as int, 0);
                lemma_px_facts(width as int, height as int, x1 as int, y as int, 1);
                lemma_px_facts(width as int, height as int, x1 as int, y as int, 2);
            }
            let index = (y * width + x1) * 3;
            image[index] = 128;
            image[index + 1] = 128;
            image[index + 2] = 128;
            y = y + 1;
            proof {
                assert forall|xx: int, yy: int, c: int|
                    0 <= xx < width && 0 <= yy < height && 0 <= c < 3 implies (#[trigger] image@[px(
                    width as int,
                    xx,
                    yy,
                    c,
                )]) == (if xx == x1 && y1 <= yy < y {
                    128u8
                } else {
                    old(image)@[px(width as int, xx, yy, c)]
                }) by {
                    lemma_px_facts(width as int, height as int, xx, yy, c);
                    lemma_px_facts(width as int, height as int, x1 as int, y as int - 1, 0);
                    lemma_px_facts(width as int, height as int, x1 as int, y as int - 1, 1);
                    lemma_px_facts(width as int, height as int, x1 as int, y as int - 1, 2);
                }
            }
        }
    } else if y2 - y1 == 0 {
        let mut x: usize = x1;
        while x <= x2
            invariant
                1 <= width <= crate::MAX_DIM,
                1 <= height <= crate::MAX_DIM,
                image@.len() == width * height * 3,
                x1 != x2,
                y1 == y2,
                x1 <= x <= x2 + 1,
                x2 < width,
                y2 < height,
                forall|xx: int, yy: int, c: int|
                    0 <= xx < width && 0 <= yy < height && 0 <= c < 3 ==> (#[trigger] image@[px(
                        width as int,
                        xx,
                        yy,
                        c,
                    )]) == (if yy == y1 && x1 <= xx < x {
                        128u8
                    } else {
                        old(image)@[px(width as int, xx, yy, c)]
                    }),
            decreases x2 + 1 - x,
        {
            proof {
                vstd::arithmetic::mul::lemma_mul_upper_bound(
                    width as int,
                    crate::MAX_DIM as int,
                    height as int,
                    crate::MAX_DIM as int,
                );
                lemma_px_facts(width as int, height as int, x as int, y1 as int, 0);
                lemma_px_facts(width as int, height as int, x as int, y1 as int, 1);
                lemma_px_facts(width as int, height as int, x as int, y1 as int, 2);
            }
            let index = (y1 * width + x) * 3;
            image[index] = 128;
            image[index + 1] = 128;
            image[index + 2] = 128;
            x = x + 1;
            proof {
                assert forall|xx: int, yy: int, c: int|
                    0 <= xx < width && 0 <= yy < height && 0 <= c < 3 implies (#[trigger] image@[px(
                    width as int,
                    xx,
                    yy,
                    c,
                )]) == (if yy == y1 && x1 <= xx < x {
                    128u8
                } else {
                    old(image)@[px(width as int, xx, yy, c)]
                }) by {
                    lemma_px_facts(width as int, height as int, xx, yy, c);
                    lemma_px_facts(width as int, height as int, x as int - 1, y1 as int, 0);
                    lemma_px_facts(width as int, height as int, x as int - 1, y1 as int, 1);
                    lemma_px_facts(width as int, height as int, x as int - 1, y1 as int, 2);
                }
            }
        }
    }
}

/// Draw the one-pixel border of a rectangle, corners inclusive.
pub fn draw_rect(
    image: &mut Vec<u8>,
    width: usize,
    height: usize,
    x1: usize,
    y1: usize,
    x2: usize,
    y2: usize,
)
    requires
        1 <= width <= crate::MAX_DIM,
        1 <= height <= crate::MAX_DIM,
        old(image)@.len() == width * height * 3,
        x1 <= x2 < width,
        y1 <= y2 < height,
    ensures
        final(image)@.len() == old(image)@.len(),
        forall|xx: int, yy: int, c: int|
            0 <= xx < width && 0 <= yy < height && 0 <= c < 3 ==> (#[trigger] final(image)@[px(width as int, xx, yy, c)]) == (if on_rect_border(
                x1 as int,
                y1 as int,
                x2 as int,
                y2 as int,
                xx,
                yy,
            ) {
                128u8
            } else {
                old(image)@[px(width as int, xx, yy, c)]
            }),
{
    draw_line(image, width, height, x1, y1, x2, y1);
    draw_line(image, width, height, x1, y2, x2, y2);
    draw_line(image, width, height, x1, y1, x1, y2);
    draw_line(image, width, height, x2, y1, x2, y2);
}

/// Leaf coordinates stay inside the supported coordinate range.
pub open spec fn leaves_geom(leaves: Seq<QuadNode>) -> bool {
    forall|k: int| 0 <= k < leaves.len() ==> (#[trigger] leaves[k]).geom_wf()
}

/// No pixel lies in two different leaves.
pub open spec fn leaves_disjoint(leaves: Seq<QuadNode>) -> bool {
    forall|k1: int, k2: int, x: int, y: int|
        0 <= k1 < leaves.len() && 0 <= k2 < leaves.len() && #[trigger] node_contains(
            leaves[k1],
            x,
            y,
        ) && #[trigger] node_contains(leaves[k2], x, y) ==> k1 == k2
}

/// Paint each leaf's region of the image with the leaf's representative
/// color, clipped to the displayed area; pixels under no leaf are left
/// alone.
pub fn fill_leaf_regions(out: &mut Vec<u8>, w: usize, h: usize, leaves: &Vec<QuadNode>)
    requires
        1 <= w <= crate::MAX_DIM,
        1 <= h <= crate::MAX_DIM,
        old(out)@.len() == w * h * 3,
        leaves_geom(leaves@),
        leaves_disjoint(leaves@),
    ensures
        final(out)@.len() == w * h * 3,
        forall|k: int, x: int, y: int, c: int|
            0 <= k < leaves@.len() && node_contains(#[trigger] leaves@[k], x, y) && 0 <= x < w && 0
                <= y < h && 0 <= c < 3 ==> #[trigger] final(out)@[px(w as int, x, y, c)]
                == leaves@[k].rgb@[c],
        forall|x: int, y: int, c: int|
            0 <= x < w && 0 <= y < h && 0 <= c < 3 && !(exists|k: int|
                0 <= k < leaves@.len() && node_contains(#[trigger] leaves@[k], x, y))
                ==> #[trigger] final(out)@[px(w as int, x, y, c)] == old(out)@[px(w as int, x, y, c)],
{
    let n = leaves.len();
    let mut i: usize = 0;
    while i < n
        invariant
            1 <= w <= crate::MAX_DIM,
            1 <= h <= crate::MAX_DIM,
            out@.len() == w * h * 3,
            n == leaves@.len(),
            i <= n,
            leaves_geom(leaves@),
            leaves_disjoint(leaves@),
            forall|k: int, x: int, y: int, c: int|
                0 <= k < i && node_contains(#[trigger] leaves@[k], x, y) && 0 <= x < w && 0 <= y < h
                    && 0 <= c < 3 ==> #[trigger] out@[px(w as int, x, y, c)] == leaves@[k].rgb@[c],
            forall|x: int, y: int, c: int|
                0 <= x < w && 0 <= y < h && 0 <= c < 3 && !(exists|k: int|
                    0 <= k < i && node_contains(#[trigger] leaves@[k], x, y)) ==> #[trigger] out@[px(
                    w as int,
                    x,
                    y,
                    c,
                )] == old(out)@[px(w as int, x, y, c)],
        decreases n - i,
    {
        let ghost entry = out@;
        let leaf = &leaves[i];
        let bleft = leaf.box_left;
        let btop = leaf.box_top;
        let bright = leaf.box_right;
        let bbottom = leaf.box_bottom;
        let x_end = if bright > w {
            w
        } else {
            bright
        };
        let y_end = if bbottom > h {
            h
        } else {
            bbottom
        };
        let r = leaf.rgb[0];
        let g = leaf.rgb[1];
        let b = leaf.rgb[2];
        let mut y: usize = btop;
        while y < y_end
            invariant
                1 <= w <= crate::MAX_DIM,
                1 <= h <= crate::MAX_DIM,
                out@.len() == w * h * 3,
                i < n == leaves@.len(),
                leaves@[i as int].geom_wf(),
                bleft == leaves@[i as int].box_left,
                btop == leaves@[i as int].box_top,
                bright == leaves@[i as int].box_right,
                bbottom == leaves@[i as int].box_bottom,
                x_end == (if bright > w {
                    w
                } else {
                    bright
                }),
                y_end == (if bbottom > h {
                    h
                } else {
                    bbottom
                }),
                x_end <= w,
                y_end <= h,
                btop <= y,
                y <= y_end || y == btop,
                r == leaves@[i as int].rgb@[0],
                g == leaves@[i as int].rgb@[1],
                b == leaves@[i as int].rgb@[2],
                forall|xx: int, yy: int, c: int|
                    0 <= xx < w && 0 <= yy < h && 0 <= c < 3 ==> #[trigger] out@[px(
                        w as int,
                        xx,
                        yy,
                        c,
                    )] == (if node_contains(leaves@[i as int], xx, yy) && yy < y {
                        leaves@[i as int].rgb@[c]
                    } else {
                        entry[px(w as int, xx, yy, c)]
                    }),
            decreases y_end - y,
        {
            let mut x: usize = bleft;
            while x < x_end
                invariant
                    1 <= w <= crate::MAX_DIM,
                    1 <= h <= crate::MAX_DIM,
                    out@.len() == w * h * 3,
                    i < n == leaves@.len(),
                    leaves@[i as int].geom_wf(),
                    bleft == leaves@[i as int].box_left,
                    btop == leaves@[i as int].box_top,
                    bright == leaves@[i as int].box_right,
                    bbottom == leaves@[i as int].box_bottom,
                    x_end == (if bright > w {
                        w
                    } else {
                        bright
                    }),
                    x_end <= w,
                    y_end <= h,
                    y_end <= bbottom,
                    btop <= y < y_end,
                    bleft <= x,
                    x <= x_end || x == bleft,
                    r == leaves@[i as int].rgb@[0],
                    g == leaves@[i as int].rgb@[1],
                    b == leaves@[i as int].rgb@[2],
                    forall|xx: int, yy: int, c: int|
                        0 <= xx < w && 0 <= yy < h && 0 <= c < 3 ==> #[trigger] out@[px(
                            w as int,
                            xx,
                            yy,
                            c,
                        )] == (if node_contains(leaves@[i as int], xx, yy) && (yy < y || (yy == y
                            && xx < x)) {
                            leaves@[i as int].rgb@[c]
                        } else {
                            entry[px(w as int, xx, yy, c)]
                        }),
                decreases x_end - x,
            {
                proof {
                    vstd::arithmetic::mul::lemma_mul_upper_bound(
                        w as int,
                        crate::MAX_DIM as int,
                        h as int,
                        crate::MAX_DIM as int,
                    );
                    lemma_px_facts(w as int, h as int, x as int, y as int, 0);
                    lemma_px_facts(w as int, h as int, x as int, y as int, 1);
                    lemma_px_facts(w as int, h as int, x as int, y as int, 2);
                }
                let index = (y * w + x) * 3;
                out[index] = r;
                out[index + 1] = g;
                out[index + 2] = b;
                x = x + 1;
                proof {
                    assert forall|xx: int, yy: int, c: int|
                        0 <= xx < w && 0 <= yy < h && 0 <= c < 3 implies #[trigger] out@[px(
                        w as int,
                        xx,
                        yy,
                        c,
                    )] == (if node_contains(leaves@[i as int], xx, yy) && (yy < y || (yy == y && xx
                        < x)) {
                        leaves@[i as int].rgb@[c]
                    } else {
                        entry[px(w as int, xx, yy, c)]
                    }) by {
                        lemma_px_facts(w as int, h as int, xx, yy, c);
                        lemma_px_facts(w as int, h as int, x as int - 1, y as int, 0);
                        lemma_px_facts(w as int, h as int, x as int - 1, y as int, 1);
                        lemma_px_facts(w as int, h as int, x as int - 1, y as int, 2);
                    }
                }
            }
            y = y + 1;
        }
        i = i + 1;
        proof {
            let ii = i as int - 1;
            assert forall|k: int, x: int, y: int, c: int|
                0 <= k < i && node_contains(#[trigger] leaves@[k], x, y) && 0 <= x < w && 0 <= y < h
                    && 0 <= c < 3 implies #[trigger] out@[px(w as int, x, y, c)]
                == leaves@[k].rgb@[c] by {
                if k < ii {
                    assert(!node_contains(leaves@[ii], x, y));
                }
            }
            assert forall|x: int, y: int, c: int|
                0 <= x < w && 0 <= y < h && 0 <= c < 3 && !(exists|k: int|
                    0 <= k < i && node_contains(#[trigger] leaves@[k], x, y)) implies #[trigger] out@[px(
                w as int,
                x,
                y,
                c,
            )] == old(out)@[px(w as int, x, y, c)] by {
                assert(!node_contains(leaves@[ii], x, y));
                assert(!(exists|k: int| 0 <= k < ii && node_contains(#[trigger] leaves@[k], x, y)));
            }
        }
    }
}

/// Whether `(x, y)` lies on the border of a leaf's box as the overlay
/// pass draws it, clipped to the displayed area.
pub open spec fn on_clipped_border(n: QuadNode, w: int, h: int, x: int, y: int) -> bool {
    let x2 = if n.box_right >= w {
        w - 1
    } else {
        n.box_right as int
    };
    let y2 = if n.box_bottom >= h {
        h - 1
    } else {
        n.box_bottom as int
    };
    &&& n.box_left <= x2
    &&& n.box_top <= y2
    &&& on_rect_border(n.box_left as int, n.box_top as int, x2, y2, x, y)
}

/// The output image shows the quad-tree decomposition of some leaf list
/// tiling the root region: each pixel carries its leaf's representative
/// color, and, when the overlay is on, leaf borders are drawn mid-gray.
pub open spec fn rendered_leaves(
    out: Seq<u8>,
    w: int,
    h: int,
    qt: QuadTree,
    leaves: Seq<QuadNode>,
    root: QuadNode,
) -> bool {
    &&& root.box_left == 0 && root.box_top == 0
    &&& root.geom_wf()
    &&& root.box_right >= w && root.box_bottom >= h
    &&& (qt.use_pow_2 ==> root.box_right == root.box_bottom && mathx::is_pow2(
        root.box_right as int,
    ))
    &&& (!qt.use_pow_2 ==> root.box_right == w && root.box_bottom == h)
    &&& leaves_tile(leaves, 0, leaves.len() as int, root)
    &&& leaves_pow2_sizes(leaves, 0, leaves.len() as int, root, qt)
    &&& forall|k: int, x: int, y: int, c: int|
        0 <= k < leaves.len() && node_contains(#[trigger] leaves[k], x, y) && 0 <= x < w && 0 <= y
            < h && 0 <= c < 3 && !(qt.use_draw_line && exists|m: int|
            0 <= m < leaves.len() && on_clipped_border(#[trigger] leaves[m], w, h, x, y))
            ==> #[trigger] out[px(w, x, y, c)] == leaves[k].rgb@[c]
    &&& qt.use_draw_line ==> forall|x: int, y: int, c: int|
        0 <= x < w && 0 <= y < h && 0 <= c < 3 && (exists|m: int|
            0 <= m < leaves.len() && on_clipped_border(#[trigger] leaves[m], w, h, x, y))
            ==> #[trigger] out[px(w, x, y, c)] == 128
}

/// What rendering a quad tree guarantees: some leaf list that tiles a
/// power-of-two root, whose statistics were measured on the visualization
/// image (pinned pixel by pixel to the subsampled original), painted as
/// flat colors with optional borders.
pub open spec fn quad_render_post(
    out: Seq<u8>,
    pre: MyImage,
    w: int,
    h: int,
    qt: QuadTree,
    use_ycbcr: bool,
    pattern: int,
) -> bool {
    exists|leaves: Seq<QuadNode>, root: QuadNode, conv: Seq<u8>|
        {
            &&& #[trigger] rendered_leaves(out, w, h, qt, leaves, root)
            &&& #[trigger] leaves_sound(leaves, 0, leaves.len() as int, conv, w, h)
            &&& conv.len() == w * h * 3
            &&& forall|x: int, y: int, c: int|
                0 <= x < w && 0 <= y < h && 0 <= c < 3 ==> #[trigger] conv[px(w, x, y, c)]
                    == crate::my_image::vis_pixel(pre, use_ycbcr, pattern, x, y, c)
            &&& leaves_no_split(leaves, 0, leaves.len() as int, qt)
        }
}

/// Render the quad-tree decomposition of the image: convert and subsample
/// the planes, rebuild the visualization image, partition it, and replace
/// the output with each leaf's flat color, optionally with borders drawn.
pub fn render_quad_tree(
    quad_tree: &QuadTree,
    my_image: &mut MyImage,
    use_ycbcr: bool,
    subsampling_index: usize,
)
    requires
        quad_tree.wf(),
        old(my_image).wf(),
    ensures
        final(my_image).wf(),
        final(my_image).width == old(my_image).width,
        final(my_image).height == old(my_image).height,
        final(my_image).mwidth == final(my_image).width,
        final(my_image).mheight == final(my_image).height,
        final(my_image).original_image == old(my_image).original_image,
        final(my_image).final_image@.len() == final(my_image).width * final(my_image).height * 3,
        quad_render_post(
            final(my_image).final_image@,
            *old(my_image),
            final(my_image).width as int,
            final(my_image).height as int,
            *quad_tree,
            use_ycbcr,
            subsampling_index as int,
        ),
{
    my_image.mwidth = my_image.width;
    my_image.mheight = my_image.height;
    let ghost pre1 = *my_image;
    if use_ycbcr {
        my_image.image_to_ycbcr();
        let ghost conv_state = *my_image;
        my_image.fill_outbound();
        let ghost padded_state = *my_image;
        my_image.subsampling(true, subsampling_index);
        let ghost subsampled = *my_image;
        my_image.ycbcr_to_image();
        proof {
            crate::my_image::lemma_prepared_planes(
                pre1,
                conv_state,
                padded_state,
                subsampled,
                true,
                subsampling_index as int,
            );
            crate::my_image::lemma_prepared_transfer(
                subsampled,
                pre1,
                *old(my_image),
                true,
                subsampling_index as int,
            );
            crate::my_image::lemma_visualized(
                *old(my_image),
                subsampled,
                *my_image,
                true,
                subsampling_index as int,
            );
        }
    } else {
        my_image.image_to_rgb();
        let ghost conv_state = *my_image;
        my_image.fill_outbound();
        let ghost padded_state = *my_image;
        my_image.subsampling(false, subsampling_index);
        let ghost subsampled = *my_image;
        my_image.rgb_to_image();
        proof {
            crate::my_image::lemma_prepared_planes(
                pre1,
                conv_state,
                padded_state,
                subsampled,
                false,
                subsampling_index as int,
            );
            crate::my_image::lemma_prepared_transfer(
                subsampled,
                pre1,
                *old(my_image),
                false,
                subsampling_index as int,
            );
            crate::my_image::lemma_visualized(
                *old(my_image),
                subsampled,
                *my_image,
                false,
                subsampling_index as int,
            );
        }
    }
    let ghost vis = my_image.final_image@;
    proof {
        assert forall|x: int, y: int, c: int|
            0 <= x < my_image.width && 0 <= y < my_image.height && 0 <= c < 3 implies #[trigger] vis[px(
            my_image.width as int,
            x,
            y,
            c,
        )] == crate::my_image::vis_pixel(
            *old(my_image),
            use_ycbcr,
            subsampling_index as int,
            x,
            y,
            c,
        ) by {
            assert(my_image.out_chan(x, y, c) == crate::my_image::vis_pixel(
                *old(my_image),
                use_ycbcr,
                subsampling_index as int,
                x,
                y,
                c,
            ));
        }
    }
    let w = my_image.width;
    let h = my_image.height;
    let (rr, rb) = if quad_tree.use_pow_2 {
        let m = if w > h {
            w
        } else {
            h
        };
        let s = mathx::next_power_of_two_bounded(m);
        (s, s)
    } else {
        (w, h)
    };
    let root = QuadNode::new(my_image, 0, 0, rr, rb, 0);
    let ghost groot = root;
    let mut quad_node_list: Vec<QuadNode> = Vec::new();
    build_tree(quad_tree, root, &mut quad_node_list, my_image);
    let ghost gleaves = quad_node_list@;
    proof {
        vstd::arithmetic::mul::lemma_mul_upper_bound(
            w as int,
            crate::MAX_DIM as int,
            h as int,
            crate::MAX_DIM as int,
        );
        vstd::arithmetic::mul::lemma_mul_inequality((w * h) as int, 0x10000000, 3);
        assert(leaves_geom(gleaves));
        assert(leaves_disjoint(gleaves));
    }
    let mut out = crate::zero_bytes(w * h * 3);
    fill_leaf_regions(&mut out, w, h, &quad_node_list);
    let ghost filled = out@;
    my_image.final_image = out;
    if quad_tree.use_draw_line {
        let n = quad_node_list.len();
        let mut i: usize = 0;
        while i < n
            invariant
                1 <= w <= crate::MAX_DIM,
                1 <= h <= crate::MAX_DIM,
                w == my_image.width,
                h == my_image.height,
                my_image.wf(),
                my_image.mwidth == my_image.width,
                my_image.mheight == my_image.height,
                my_image.original_image == old(my_image).original_image,
                my_image.final_image@.len() == w * h * 3,
                n == gleaves.len(),
                quad_node_list@ == gleaves,
                i <= n,
                leaves_geom(gleaves),
                filled.len() == w * h * 3,
                forall|x: int, y: int, c: int|
                    0 <= x < w && 0 <= y < h && 0 <= c < 3 ==> #[trigger] my_image.final_image@[px(
                        w as int,
                        x,
                        y,
                        c,
                    )] == (if exists|m: int|
                        0 <= m < i && on_clipped_border(#[trigger] gleaves[m], w as int, h as int, x, y) {
                        128u8
                    } else {
                        filled[px(w as int, x, y, c)]
                    }),
            decreases n - i,
        {
            let ghost entry = my_image.final_image@;
            let leaf = &quad_node_list[i];
            let x2 = if leaf.box_right >= w {
                w - 1
            } else {
                leaf.box_right
            };
            let y2 = if leaf.box_bottom >= h {
                h - 1
            } else {
                leaf.box_bottom
            };
            let x1 = leaf.box_left;
            let y1 = leaf.box_top;
            if x1 <= x2 && y1 <= y2 {
                draw_rect(&mut my_image.final_image, w, h, x1, y1, x2, y2);
            }
            i = i + 1;
            proof {
                let ii = i as int - 1;
                assert forall|x: int, y: int, c: int|
                    0 <= x < w && 0 <= y < h && 0 <= c < 3 implies #[trigger] my_image.final_image@[px(
                    w as int,
                    x,
                    y,
                    c,
                )] == (if exists|m: int|
                    0 <= m < i && on_clipped_border(#[trigger] gleaves[m], w as int, h as int, x, y) {
                    128u8
                } else {
                    filled[px(w as int, x, y, c)]
                }) by {
                    if exists|m: int|
                        0 <= m < i && on_clipped_border(
                            #[trigger] gleaves[m],
                            w as int,
                            h as int,
                            x,
                            y,
                        ) {
                        let m = choose|m: int|
                            0 <= m < i && on_clipped_border(
                                #[trigger] gleaves[m],
                                w as int,
                                h as int,
                                x,
                                y,
                            );
                        if m < ii {
                            assert(entry[px(w as int, x, y, c)] == 128);
                        } else {
                            assert(on_clipped_border(gleaves[ii], w as int, h as int, x, y));
                        }
                    } else {
                        assert(!(exists|m: int|
                            0 <= m < ii && on_clipped_border(
                                #[trigger] gleaves[m],
                                w as int,
                                h as int,
                                x,
                                y,
                            )));
                        assert(!on_clipped_border(gleaves[ii], w as int, h as int, x, y));
                    }
                }
            }
        }
    }
    proof {
        lemma_render_witness(
            my_image.final_image@,
            w as int,
            h as int,
            *quad_tree,
            gleaves,
            groot,
            filled,
            *old(my_image),
            use_ycbcr,
            subsampling_index as int,
            vis,
        );
    }
}

/// After the fill and overlay passes, the output image shows the leaf
/// decomposition.
proof fn lemma_render_witness(
    out: Seq<u8>,
    w: int,
    h: int,
    qt: QuadTree,
    leaves: Seq<QuadNode>,
    root: QuadNode,
    filled: Seq<u8>,
    pre: MyImage,
    use_ycbcr: bool,
    pattern: int,
    vis: Seq<u8>,
)
    requires
        vis.len() == w * h * 3,
        forall|x: int, y: int, c: int|
            0 <= x < w && 0 <= y < h && 0 <= c < 3 ==> #[trigger] vis[px(w, x, y, c)]
                == crate::my_image::vis_pixel(pre, use_ycbcr, pattern, x, y, c),
        leaves_sound(leaves, 0, leaves.len() as int, vis, w, h),
        leaves_no_split(leaves, 0, leaves.len() as int, qt),
        1 <= w,
        1 <= h,
        root.box_left == 0 && root.box_top == 0,
        root.geom_wf(),
        root.box_right >= w && root.box_bottom >= h,
        qt.use_pow_2 ==> root.box_right == root.box_bottom && mathx::is_pow2(root.box_right as int),
        !qt.use_pow_2 ==> root.box_right == w && root.box_bottom == h,
        leaves_tile(leaves, 0, leaves.len() as int, root),
        leaves_pow2_sizes(leaves, 0, leaves.len() as int, root, qt),
        filled.len() == w * h * 3,
        out.len() == w * h * 3,
        forall|k: int, x: int, y: int, c: int|
            0 <= k < leaves.len() && node_contains(#[trigger] leaves[k], x, y) && 0 <= x < w && 0
                <= y < h && 0 <= c < 3 ==> #[trigger] filled[px(w, x, y, c)] == leaves[k].rgb@[c],
        !qt.use_draw_line ==> out == filled,
        qt.use_draw_line ==> forall|x: int, y: int, c: int|
            0 <= x < w && 0 <= y < h && 0 <= c < 3 ==> #[trigger] out[px(w, x, y, c)] == (if exists|m: int|
                0 <= m < leaves.len() && on_clipped_border(#[trigger] leaves[m], w, h, x, y) {
                128u8
            } else {
                filled[px(w, x, y, c)]
            }),
    ensures
        quad_render_post(out, pre, w, h, qt, use_ycbcr, pattern),
{
    assert forall|k: int, x: int, y: int, c: int|
        0 <= k < leaves.len() && node_contains(#[trigger] leaves[k], x, y) && 0 <= x < w && 0 <= y
            < h && 0 <= c < 3 && !(qt.use_draw_line && exists|m: int|
            0 <= m < leaves.len() && on_clipped_border(#[trigger] leaves[m], w, h, x, y)) implies
        #[trigger] out[px(w, x, y, c)] == leaves[k].rgb@[c] by {}
    assert(rendered_leaves(out, w, h, qt, leaves, root));
    assert({
        &&& rendered_leaves(out, w, h, qt, leaves, root)
        &&& vis.len() == w * h * 3
        &&& forall|x: int, y: int, c: int|
            0 <= x < w && 0 <= y < h && 0 <= c < 3 ==> #[trigger] vis[px(w, x, y, c)]
                == crate::my_image::vis_pixel(pre, use_ycbcr, pattern, x, y, c)
        &&& leaves_sound(leaves, 0, leaves.len() as int, vis, w, h)
        &&& leaves_no_split(leaves, 0, leaves.len() as int, qt)
    });
}

} // verus!
