//! Planar image storage: an RGB input image, three padded working planes
//! (RGB or YCbCr), padding, chroma subsampling, and the reconstructed output.
use vstd::prelude::*;

use crate::color;
use crate::{pidx, round_up, MAX_DIM, MAX_PAD};

verus! {

/// An image being compressed: the original RGB bytes, three padded planar
/// working buffers, and the reconstructed RGB output.
pub struct MyImage {
    /// Reconstructed RGB output, row-major, three bytes per pixel.
    pub final_image: Vec<u8>,
    /// Original RGB input, row-major, three bytes per pixel.
    pub original_image: Vec<u8>,
    /// Three planar working buffers of `mwidth * mheight` bytes each.
    pub image_converted: Vec<Vec<u8>>,
    /// Displayed width.
    pub width: usize,
    /// Displayed height.
    pub height: usize,
    /// Padded width.
    pub mwidth: usize,
    /// Padded height.
    pub mheight: usize,
}

impl MyImage {
    /// Basic size invariants: dimensions are bounded so that every index
    /// computed below fits in a machine word, and the padded sizes cover the
    /// displayed ones.
    pub open spec fn wf(self) -> bool {
        &&& 1 <= self.width <= MAX_DIM
        &&& 1 <= self.height <= MAX_DIM
        &&& self.width <= self.mwidth <= MAX_PAD
        &&& self.height <= self.mheight <= MAX_PAD
        &&& self.original_image@.len() == self.width * self.height * 3
    }

    /// The three working planes are allocated for the padded size.
    pub open spec fn planes_wf(self) -> bool {
        &&& self.image_converted@.len() == 3
        &&& forall|i: int|
            0 <= i < 3 ==> (#[trigger] self.image_converted@[i])@.len() == self.mwidth
                * self.mheight
    }

    /// Channel `c` of the original image at pixel `(x, y)`.
    pub open spec fn orig_chan(self, x: int, y: int, c: int) -> int {
        self.original_image@[(y * self.width + x) * 3 + c] as int
    }

    /// Byte of working plane `i` at padded pixel `(x, y)`.
    pub open spec fn plane_at(self, i: int, x: int, y: int) -> int {
        self.image_converted@[i]@[pidx(self.mwidth as int, x, y)] as int
    }

    /// Create an image from decoded RGB bytes.
    pub fn new(original: Vec<u8>, width: usize, height: usize) -> (img: MyImage)
        requires
            1 <= width <= MAX_DIM,
            1 <= height <= MAX_DIM,
            original@.len() == width * height * 3,
        ensures
            img.wf(),
            img.original_image == original,
            img.width == width,
            img.height == height,
            img.mwidth == width,
            img.mheight == height,
            img.final_image@.len() == 0,
            img.image_converted@.len() == 0,
    {
        MyImage {
            final_image: Vec::new(),
            image_converted: Vec::new(),
            original_image: original,
            width,
            height,
            mwidth: width,
            mheight: height,
        }
    }

    /// Round the padded sizes up to the next multiples of the block size `b`.
    pub fn round_up_size(&mut self, b: usize)
        requires
            old(self).wf(),
            1 <= b <= MAX_DIM,
        ensures
            final(self).wf(),
            final(self).mwidth == round_up(old(self).width as nat, b as nat),
            final(self).mheight == round_up(old(self).height as nat, b as nat),
            final(self).width == old(self).width,
            final(self).height == old(self).height,
            final(self).original_image == old(self).original_image,
            final(self).final_image == old(self).final_image,
            final(self).image_converted == old(self).image_converted,
    {
        proof {
            crate::lemma_round_up(self.width as nat, b as nat);
            crate::lemma_round_up(self.height as nat, b as nat);
        }
        self.mwidth = ((self.width + b - 1) / b) * b;
        self.mheight = ((self.height + b - 1) / b) * b;
    }

    /// Everything but the working planes is shared between two images.
    pub open spec fn same_but_planes(pre: MyImage, post: MyImage) -> bool {
        &&& post.final_image == pre.final_image
        &&& post.original_image == pre.original_image
        &&& post.width == pre.width
        &&& post.height == pre.height
        &&& post.mwidth == pre.mwidth
        &&& post.mheight == pre.mheight
    }

    /// The displayed region of the planes holds the YCbCr transform of the
    /// original image of `pre`.
    pub open spec fn planes_are_ycbcr(post: MyImage, pre: MyImage) -> bool {
        forall|x: int, y: int|
            0 <= x < post.width && 0 <= y < post.height ==> {
                let r = pre.orig_chan(x, y, 0);
                let g = pre.orig_chan(x, y, 1);
                let b = pre.orig_chan(x, y, 2);
                &&& #[trigger] post.plane_at(0, x, y) == color::y_of(r, g, b)
                &&& post.plane_at(1, x, y) == color::cb_of(r, g, b)
                &&& post.plane_at(2, x, y) == color::cr_of(r, g, b)
            }
    }

    /// The displayed region of the planes holds the RGB channels of the
    /// original image of `pre`.
    pub open spec fn planes_are_rgb(post: MyImage, pre: MyImage) -> bool {
        forall|i: int, x: int, y: int|
            0 <= i < 3 && 0 <= x < post.width && 0 <= y < post.height ==> #[trigger] post.plane_at(
                i,
                x,
                y,
            ) == pre.orig_chan(x, y, i)
    }

    /// The padding region of the planes holds the given byte value.
    pub open spec fn padding_holds(post: MyImage, v: int) -> bool {
        forall|i: int, x: int, y: int|
            0 <= i < 3 && 0 <= x < post.mwidth && 0 <= y < post.mheight && !(x < post.width && y
                < post.height) ==> #[trigger] post.plane_at(i, x, y) == v
    }

    /// Fill the three working planes with the YCbCr transform of the original
    /// image; the padding region is left zero.
    pub fn image_to_ycbcr(&mut self)
        requires
            old(self).wf(),
        ensures
            final(self).wf(),
            final(self).planes_wf(),
            MyImage::same_but_planes(*old(self), *final(self)),
            MyImage::planes_are_ycbcr(*final(self), *old(self)),
            MyImage::padding_holds(*final(self), 0),
    {
        let ghost pre = *self;
        let (p0, p1, p2) = self.convert_planes(true);
        let ghost gp0 = p0@;
        let ghost gp1 = p1@;
        let ghost gp2 = p2@;
        let mut planes: Vec<Vec<u8>> = Vec::new();
        planes.push(p0);
        planes.push(p1);
        planes.push(p2);
        self.image_converted = planes;
        proof {
            lemma_conv_result(*self, pre, gp0, gp1, gp2, true);
        }
    }

    /// Fill the three working planes with the original RGB channels; the
    /// padding region is left zero.
    pub fn image_to_rgb(&mut self)
        requires
            old(self).wf(),
        ensures
            final(self).wf(),
            final(self).planes_wf(),
            MyImage::same_but_planes(*old(self), *final(self)),
            MyImage::planes_are_rgb(*final(self), *old(self)),
            MyImage::padding_holds(*final(self), 0),
    {
        let ghost pre = *self;
        let (p0, p1, p2) = self.convert_planes(false);
        let ghost gp0 = p0@;
        let ghost gp1 = p1@;
        let ghost gp2 = p2@;
        let mut planes: Vec<Vec<u8>> = Vec::new();
        planes.push(p0);
        planes.push(p1);
        planes.push(p2);
        self.image_converted = planes;
        proof {
            lemma_conv_result(*self, pre, gp0, gp1, gp2, false);
        }
    }

    /// Channel `c` of the reconstructed output image at pixel `(x, y)`.
    pub open spec fn out_chan(self, x: int, y: int, c: int) -> int {
        self.final_image@[(y * self.width + x) * 3 + c] as int
    }

    /// Everything but the reconstructed output is shared between two images.
    pub open spec fn same_but_output(pre: MyImage, post: MyImage) -> bool {
        &&& post.original_image == pre.original_image
        &&& post.image_converted == pre.image_converted
        &&& post.width == pre.width
        &&& post.height == pre.height
        &&& post.mwidth == pre.mwidth
        &&& post.mheight == pre.mheight
    }

    /// The output image holds the inverse YCbCr transform of the planes.
    pub open spec fn output_is_inv_ycbcr(post: MyImage, pre: MyImage) -> bool {
        forall|x: int, y: int|
            0 <= x < post.width && 0 <= y < post.height ==> {
                let cy = pre.plane_at(0, x, y);
                let cb = pre.plane_at(1, x, y);
                let cr = pre.plane_at(2, x, y);
                &&& #[trigger] post.out_chan(x, y, 0) == color::r_of(cy, cb, cr)
                &&& post.out_chan(x, y, 1) == color::g_of(cy, cb, cr)
                &&& post.out_chan(x, y, 2) == color::b_of(cy, cb, cr)
            }
    }

    /// The output image holds the planes read back as plain RGB channels.
    pub open spec fn output_is_planes(post: MyImage, pre: MyImage) -> bool {
        forall|x: int, y: int, c: int|
            0 <= x < post.width && 0 <= y < post.height && 0 <= c < 3 ==> #[trigger] post.out_chan(
                x,
                y,
                c,
            ) == pre.plane_at(c, x, y)
    }

    /// Rebuild the output image from the planes through the inverse YCbCr
    /// transform.
    pub fn ycbcr_to_image(&mut self)
        requires
            old(self).wf(),
            old(self).planes_wf(),
        ensures
            final(self).wf(),
            final(self).planes_wf(),
            MyImage::same_but_output(*old(self), *final(self)),
            final(self).final_image@.len() == final(self).width * final(self).height * 3,
            MyImage::output_is_inv_ycbcr(*final(self), *old(self)),
    {
        let out = self.emit_image(true);
        self.final_image = out;
        proof {
            lemma_emit_result(*self, *old(self), true);
        }
    }

    /// Rebuild the output image from the planes as plain RGB channels.
    pub fn rgb_to_image(&mut self)
        requires
            old(self).wf(),
            old(self).planes_wf(),
        ensures
            final(self).wf(),
            final(self).planes_wf(),
            MyImage::same_but_output(*old(self), *final(self)),
            final(self).final_image@.len() == final(self).width * final(self).height * 3,
            MyImage::output_is_planes(*final(self), *old(self)),
    {
        let out = self.emit_image(false);
        self.final_image = out;
        proof {
            lemma_emit_result(*self, *old(self), false);
        }
    }

    /// Build the output byte buffer from the planes, either through the
    /// inverse YCbCr transform or by reading the channels back directly.
    fn emit_image(&self, from_ycbcr: bool) -> (out: Vec<u8>)
        requires
            self.wf(),
            self.planes_wf(),
        ensures
            out@.len() == self.width * self.height * 3,
            emit_done_upto(out@, *self, from_ycbcr, self.height as int, 0),
    {
        let mw = self.mwidth;
        let w = self.width;
        let h = self.height;
        proof {
            vstd::arithmetic::mul::lemma_mul_upper_bound(
                w as int,
                MAX_DIM as int,
                h as int,
                MAX_DIM as int,
            );
            vstd::arithmetic::mul::lemma_mul_inequality((w * h) as int, 0x10000000, 3);
        }
        let mut out = crate::zero_bytes(w * h * 3);
        let mut y: usize = 0;
        while y < h
            invariant
                self.wf(),
                self.planes_wf(),
                w == self.width,
                h == self.height,
                mw == self.mwidth,
                y <= h,
                out@.len() == w * h * 3,
                emit_done_upto(out@, *self, from_ycbcr, y as int, 0),
            decreases h - y,
        {
            let mut x: usize = 0;
            while x < w
                invariant
                    self.wf(),
                    self.planes_wf(),
                    w == self.width,
                    h == self.height,
                    mw == self.mwidth,
                    y < h,
                    x <= w,
                    out@.len() == w * h * 3,
                    emit_done_upto(out@, *self, from_ycbcr, y as int, x as int),
                decreases w - x,
            {
                proof {
                    crate::lemma_pidx_bound(mw as int, self.mheight as int, x as int, y as int);
                    crate::lemma_pidx_bound(w as int, h as int, x as int, y as int);
                    vstd::arithmetic::mul::lemma_mul_upper_bound(
                        w as int,
                        MAX_DIM as int,
                        h as int,
                        MAX_DIM as int,
                    );
                    vstd::arithmetic::mul::lemma_mul_upper_bound(
                        mw as int,
                        MAX_PAD as int,
                        self.mheight as int,
                        MAX_PAD as int,
                    );
                    vstd::arithmetic::mul::lemma_mul_inequality(
                        (y * w + x + 1) as int,
                        (w * h) as int,
                        3,
                    );
                }
                let j = y * mw + x;
                let c0 = self.image_converted[0][j];
                let c1 = self.image_converted[1][j];
                let c2 = self.image_converted[2][j];
                let (v0, v1, v2) = if from_ycbcr {
                    color::ycbcr_to_rgb_pixel(c0, c1, c2)
                } else {
                    (c0, c1, c2)
                };
                let o = (y * w + x) * 3;
                out[o] = v0;
                out[o + 1] = v1;
                out[o + 2] = v2;
                x = x + 1;
                proof {
                    let xi = x as int;
                    let yi = y as int;
                    assert forall|xx: int, yy: int| #[trigger] conv_cell_done(
                        *self,
                        yi,
                        xi,
                        xx,
                        yy,
                    ) implies emit_cell_ok(out@, *self, from_ycbcr, xx, yy) by {
                        crate::lemma_pidx_bound(w as int, h as int, xx, yy);
                        if !(xx == xi - 1 && yy == yi) {
                            assert(conv_cell_done(*self, yi, xi - 1, xx, yy));
                            lemma_pixel_order(w as int, xx, yy, xi - 1, yi);
                        }
                    }
                }
            }
            proof {
                let yi = y as int;
                assert forall|xx: int, yy: int| #[trigger] conv_cell_done(
                    *self,
                    yi + 1,
                    0,
                    xx,
                    yy,
                ) implies emit_cell_ok(out@, *self, from_ycbcr, xx, yy) by {
                    assert(conv_cell_done(*self, yi, self.width as int, xx, yy));
                }
            }
            y = y + 1;
        }
        out
    }

    /// The displayed region of the planes is shared between two images.
    pub open spec fn displayed_planes_same(pre: MyImage, post: MyImage) -> bool {
        forall|i: int, x: int, y: int|
            0 <= i < 3 && 0 <= x < post.width && 0 <= y < post.height ==> #[trigger] post.plane_at(
                i,
                x,
                y,
            ) == pre.plane_at(i, x, y)
    }

    /// Set every plane byte outside the displayed region to the neutral value
    /// 0x80, so the padding does not bias the block transforms.
    pub fn fill_outbound(&mut self)
        requires
            old(self).wf(),
            old(self).planes_wf(),
        ensures
            final(self).wf(),
            final(self).planes_wf(),
            MyImage::same_but_planes(*old(self), *final(self)),
            final(self).final_image == old(self).final_image,
            MyImage::displayed_planes_same(*old(self), *final(self)),
            MyImage::padding_holds(*final(self), 0x80),
    {
        let mw = self.mwidth;
        let mh = self.mheight;
        let w = self.width;
        let h = self.height;
        let mut y: usize = 0;
        while y < mh
            invariant
                old(self).wf(),
                old(self).planes_wf(),
                self.wf(),
                self.planes_wf(),
                MyImage::same_but_planes(*old(self), *self),
                self.final_image == old(self).final_image,
                w == self.width,
                h == self.height,
                mw == self.mwidth,
                mh == self.mheight,
                y <= mh,
                pad_done_upto(*self, y as int, 0),
                pad_same_from(*old(self), *self, y as int, 0),
            decreases mh - y,
        {
            let mut x: usize = 0;
            while x < mw
                invariant
                    old(self).wf(),
                    old(self).planes_wf(),
                    self.wf(),
                    self.planes_wf(),
                    MyImage::same_but_planes(*old(self), *self),
                    self.final_image == old(self).final_image,
                    w == self.width,
                    h == self.height,
                    mw == self.mwidth,
                    mh == self.mheight,
                    y < mh,
                    x <= mw,
                    pad_done_upto(*self, y as int, x as int),
                    pad_same_from(*old(self), *self, y as int, x as int),
                decreases mw - x,
            {
                proof {
                    crate::lemma_pidx_bound(mw as int, mh as int, x as int, y as int);
                    vstd::arithmetic::mul::lemma_mul_upper_bound(
                        mw as int,
                        MAX_PAD as int,
                        mh as int,
                        MAX_PAD as int,
                    );
                }
                let ghost entry = *self;
                if x >= w || y >= h {
                    let j = y * mw + x;
                    self.image_converted[0][j] = 0x80;
                    self.image_converted[1][j] = 0x80;
                    self.image_converted[2][j] = 0x80;
                }
                x = x + 1;
                proof {
                    let xi = x as int;
                    let yi = y as int;
                    assert forall|i: int, xx: int, yy: int| #[trigger] pad_cell(
                        *self,
                        yi,
                        xi,
                        i,
                        xx,
                        yy,
                    ) implies self.plane_at(i, xx, yy) == 0x80 by {
                        crate::lemma_pidx(mw as int, xx, yy);
                        crate::lemma_pidx(mw as int, xi - 1, yi);
                        crate::lemma_pidx_bound(mw as int, mh as int, xx, yy);
                        crate::lemma_pidx_bound(mw as int, mh as int, xi - 1, yi);
                        if !(xx == xi - 1 && yy == yi) {
                            assert(pad_cell(entry, yi, xi - 1, i, xx, yy));
                            assert(entry.plane_at(i, xx, yy) == 0x80);
                        }
                    }
                    assert forall|i: int, xx: int, yy: int| #[trigger] live_cell(
                        *self,
                        yi,
                        xi,
                        i,
                        xx,
                        yy,
                    ) implies self.plane_at(i, xx, yy) == old(self).plane_at(i, xx, yy) by {
                        crate::lemma_pidx(mw as int, xx, yy);
                        crate::lemma_pidx(mw as int, xi - 1, yi);
                        crate::lemma_pidx_bound(mw as int, mh as int, xx, yy);
                        crate::lemma_pidx_bound(mw as int, mh as int, xi - 1, yi);
                        assert(live_cell(entry, yi, xi - 1, i, xx, yy));
                        assert(entry.plane_at(i, xx, yy) == old(self).plane_at(i, xx, yy));
                    }
                }
            }
            proof {
                let yi = y as int;
                assert forall|i: int, xx: int, yy: int| #[trigger] pad_cell(
                    *self,
                    yi + 1,
                    0,
                    i,
                    xx,
                    yy,
                ) implies self.plane_at(i, xx, yy) == 0x80 by {
                    assert(pad_cell(*self, yi, mw as int, i, xx, yy));
                }
                assert forall|i: int, xx: int, yy: int| #[trigger] live_cell(
                    *self,
                    yi + 1,
                    0,
                    i,
                    xx,
                    yy,
                ) implies self.plane_at(i, xx, yy) == old(self).plane_at(i, xx, yy) by {
                    assert(live_cell(*self, yi, mw as int, i, xx, yy));
                }
            }
            y = y + 1;
        }
        proof {
            let mhi = mh as int;
            assert forall|i: int, x: int, y: int|
                0 <= i < 3 && 0 <= x < self.width && 0 <= y < self.height implies #[trigger] self.plane_at(
                i,
                x,
                y,
            ) == old(self).plane_at(i, x, y) by {
                assert(live_cell(*self, mhi, 0, i, x, y));
            }
            assert forall|i: int, x: int, y: int|
                0 <= i < 3 && 0 <= x < self.mwidth && 0 <= y < self.mheight && !(x < self.width && y
                    < self.height) implies #[trigger] self.plane_at(i, x, y) == 0x80 by {
                assert(pad_cell(*self, mhi, 0, i, x, y));
            }
        }
    }

    /// Rewrite the planes in place according to a chroma subsampling pattern.
    /// Within each two-row by four-column cell, sampled pixels are replicated
    /// over the pixels the pattern discards. When `use_ycbcr` is set the luma
    /// plane is left untouched. Patterns outside the six known indices leave
    /// every plane unchanged, as does the identity pattern 0. Only the
    /// displayed region is rewritten; the padding keeps its value.
    pub fn subsampling(&mut self, use_ycbcr: bool, subsampling_index: usize)
        requires
            old(self).wf(),
            old(self).planes_wf(),
        ensures
            final(self).wf(),
            final(self).planes_wf(),
            MyImage::same_but_planes(*old(self), *final(self)),
            final(self).final_image == old(self).final_image,
            ss_result(*final(self), *old(self), if use_ycbcr { 1int } else { 0int }, subsampling_index as int),
    {
        let start: usize = if use_ycbcr {
            1
        } else {
            0
        };
        let pattern = subsampling_index;
        let kx: usize = if pattern == 2 || pattern == 3 {
            2
        } else if pattern == 4 || pattern == 5 {
            4
        } else {
            1
        };
        let half_rows: bool = pattern == 1 || pattern == 3 || pattern == 5;
        let mw = self.mwidth;
        let mh = self.mheight;
        let w = self.width;
        let h = self.height;
        let ghost st = start as int;
        let ghost pat = pattern as int;
        let mut y: usize = 0;
        while y < h
            invariant
                old(self).wf(),
                old(self).planes_wf(),
                self.wf(),
                self.planes_wf(),
                MyImage::same_but_planes(*old(self), *self),
                self.final_image == old(self).final_image,
                w == self.width,
                h == self.height,
                mw == self.mwidth,
                mh == self.mheight,
                st == if use_ycbcr { 1int } else { 0int },
                st == start as int,
                0 <= st <= 1,
                pat == pattern as int,
                kx as int == src_step(pat),
                half_rows == src_halves_rows(pat),
                y <= h,
                ss_done_upto(*self, *old(self), st, pat, y as int, 0),
                ss_same_from(*self, *old(self), st, y as int, 0),
            decreases h - y,
        {
            let mut x: usize = 0;
            while x < w
                invariant
                    old(self).wf(),
                    old(self).planes_wf(),
                    self.wf(),
                    self.planes_wf(),
                    MyImage::same_but_planes(*old(self), *self),
                    self.final_image == old(self).final_image,
                    w == self.width,
                    h == self.height,
                    mw == self.mwidth,
                    mh == self.mheight,
                    st == start as int,
                    0 <= st <= 1,
                    pat == pattern as int,
                    kx as int == src_step(pat),
                    half_rows == src_halves_rows(pat),
                    y < h,
                    x <= w,
                    ss_done_upto(*self, *old(self), st, pat, y as int, x as int),
                    ss_same_from(*self, *old(self), st, y as int, x as int),
                decreases w - x,
            {
                proof {
                    crate::lemma_pidx_bound(mw as int, mh as int, x as int, y as int);
                    vstd::arithmetic::mul::lemma_mul_upper_bound(
                        mw as int,
                        MAX_PAD as int,
                        mh as int,
                        MAX_PAD as int,
                    );
                }
                let sx = x - x % kx;
                let sy = if half_rows {
                    y - y % 2
                } else {
                    y
                };
                proof {
                    assert(sx as int == subsample_src_x(pat, x as int));
                    assert(sy as int == subsample_src_y(pat, y as int));
                    crate::lemma_pidx_bound(mw as int, mh as int, sx as int, sy as int);
                }
                let ghost entry = *self;
                if sx != x || sy != y {
                    let j = y * mw + x;
                    let sj = sy * mw + sx;
                    proof {
                        lemma_src_reads_old(entry, *old(self), st, pat, y as int, x as int);
                    }
                    copy_cell(&mut self.image_converted, start, j, sj);
                }
                x = x + 1;
                proof {
                    let xi = x as int;
                    let yi = y as int;
                    assert forall|i: int, xx: int, yy: int| #[trigger] ss_written(
                        *self,
                        st,
                        yi,
                        xi,
                        i,
                        xx,
                        yy,
                    ) implies self.plane_at(i, xx, yy) == old(self).plane_at(
                        i,
                        subsample_src_x(pat, xx),
                        subsample_src_y(pat, yy),
                    ) by {
                        crate::lemma_pidx(mw as int, xx, yy);
                        crate::lemma_pidx(mw as int, xi - 1, yi);
                        crate::lemma_pidx_bound(mw as int, mh as int, xx, yy);
                        crate::lemma_pidx_bound(mw as int, mh as int, xi - 1, yi);
                        lemma_src_in_range(pat, xx, yy);
                        if !(xx == xi - 1 && yy == yi) {
                            assert(ss_written(entry, st, yi, xi - 1, i, xx, yy));
                            assert(entry.plane_at(i, xx, yy) == old(self).plane_at(
                                i,
                                subsample_src_x(pat, xx),
                                subsample_src_y(pat, yy),
                            ));
                            assert(self.plane_at(i, xx, yy) == entry.plane_at(i, xx, yy));
                        } else {
                            if subsample_src_x(pat, xx) == xx && subsample_src_y(pat, yy) == yy {
                                assert(!ss_written(entry, st, yi, xi - 1, i, xx, yy));
                                assert(entry.plane_at(i, xx, yy) == old(self).plane_at(i, xx, yy));
                                assert(self.plane_at(i, xx, yy) == entry.plane_at(i, xx, yy));
                            } else {
                                assert(entry.plane_at(
                                    i,
                                    subsample_src_x(pat, xi - 1),
                                    subsample_src_y(pat, yi),
                                ) == old(self).plane_at(
                                    i,
                                    subsample_src_x(pat, xi - 1),
                                    subsample_src_y(pat, yi),
                                ));
                                assert(self.plane_at(i, xx, yy) == entry.plane_at(
                                    i,
                                    subsample_src_x(pat, xi - 1),
                                    subsample_src_y(pat, yi),
                                ));
                            }
                        }
                    }
                    assert forall|i: int, xx: int, yy: int|
                        0 <= i < 3 && 0 <= xx < mw && 0 <= yy < mh && !ss_written(
                            *self,
                            st,
                            yi,
                            xi,
                            i,
                            xx,
                            yy,
                        ) implies #[trigger] self.plane_at(i, xx, yy) == old(self).plane_at(
                        i,
                        xx,
                        yy,
                    ) by {
                        crate::lemma_pidx(mw as int, xx, yy);
                        crate::lemma_pidx(mw as int, xi - 1, yi);
                        crate::lemma_pidx_bound(mw as int, mh as int, xx, yy);
                        crate::lemma_pidx_bound(mw as int, mh as int, xi - 1, yi);
                        assert(!ss_written(entry, st, yi, xi - 1, i, xx, yy));
                        assert(entry.plane_at(i, xx, yy) == old(self).plane_at(i, xx, yy));
                        assert(self.plane_at(i, xx, yy) == entry.plane_at(i, xx, yy));
                    }
                }
            }
            proof {
                let yi = y as int;
                assert forall|i: int, xx: int, yy: int| #[trigger] ss_written(
                    *self,
                    st,
                    yi + 1,
                    0,
                    i,
                    xx,
                    yy,
                ) implies self.plane_at(i, xx, yy) == old(self).plane_at(
                    i,
                    subsample_src_x(pat, xx),
                    subsample_src_y(pat, yy),
                ) by {
                    assert(ss_written(*self, st, yi, w as int, i, xx, yy));
                }
                assert forall|i: int, xx: int, yy: int|
                    0 <= i < 3 && 0 <= xx < mw && 0 <= yy < mh && !ss_written(
                        *self,
                        st,
                        yi + 1,
                        0,
                        i,
                        xx,
                        yy,
                    ) implies #[trigger] self.plane_at(i, xx, yy) == old(self).plane_at(
                    i,
                    xx,
                    yy,
                ) by {
                    assert(!ss_written(*self, st, yi, w as int, i, xx, yy));
                }
            }
            y = y + 1;
        }
        proof {
            let hi = h as int;
            assert forall|i: int, x: int, y: int|
                st <= i < 3 && 0 <= x < self.width && 0 <= y < self.height implies #[trigger] self.plane_at(
                i,
                x,
                y,
            ) == old(self).plane_at(i, subsample_src_x(pat, x), subsample_src_y(pat, y)) by {
                assert(ss_written(*self, st, hi, 0, i, x, y));
            }
            assert forall|i: int, x: int, y: int|
                0 <= i < 3 && 0 <= x < self.mwidth && 0 <= y < self.mheight && !(st <= i && x
                    < self.width && y < self.height) implies #[trigger] self.plane_at(i, x, y)
                == old(self).plane_at(i, x, y) by {
                assert(!ss_written(*self, st, hi, 0, i, x, y));
            }
        }
    }

    /// Rewrite the planes according to a subsampling pattern, rejecting a
    /// pattern index outside the six documented ones instead of silently
    /// leaving the planes alone.
    pub fn subsampling_checked(&mut self, use_ycbcr: bool, subsampling_index: usize) -> (r: Result<
        (),
        crate::quad_mind::QuadMindError,
    >)
        requires
            old(self).wf(),
            old(self).planes_wf(),
        ensures
            subsampling_index > 5 ==> r == Err::<(), crate::quad_mind::QuadMindError>(
                crate::quad_mind::QuadMindError::InvalidConfig,
            ) && *final(self) == *old(self),
            subsampling_index <= 5 ==> r == Ok::<(), crate::quad_mind::QuadMindError>(()),
            subsampling_index <= 5 ==> final(self).wf() && final(self).planes_wf()
                && MyImage::same_but_planes(*old(self), *final(self)) && final(self).final_image
                == old(self).final_image && ss_result(
                *final(self),
                *old(self),
                if use_ycbcr {
                    1int
                } else {
                    0int
                },
                subsampling_index as int,
            ),
    {
        if subsampling_index > 5 {
            return Err(crate::quad_mind::QuadMindError::InvalidConfig);
        }
        self.subsampling(use_ycbcr, subsampling_index);
        Ok(())
    }

    /// Build the three working planes from the original image, either through
    /// the YCbCr transform or as plain RGB channels.
    fn convert_planes(&self, to_ycbcr: bool) -> (planes: (Vec<u8>, Vec<u8>, Vec<u8>))
        requires
            self.wf(),
        ensures
            planes.0@.len() == self.mwidth * self.mheight,
            planes.1@.len() == self.mwidth * self.mheight,
            planes.2@.len() == self.mwidth * self.mheight,
            conv_done_upto(planes.0@, planes.1@, planes.2@, *self, to_ycbcr, self.height as int, 0),
            conv_zero_from(planes.0@, planes.1@, planes.2@, *self, self.height as int, 0),
    {
        let mw = self.mwidth;
        let mh = self.mheight;
        let w = self.width;
        let h = self.height;
        proof {
            vstd::arithmetic::mul::lemma_mul_upper_bound(
                mw as int,
                MAX_PAD as int,
                mh as int,
                MAX_PAD as int,
            );
        }
        let mut p0 = crate::zero_bytes(mw * mh);
        let mut p1 = crate::zero_bytes(mw * mh);
        let mut p2 = crate::zero_bytes(mw * mh);
        proof {
            assert forall|xx: int, yy: int| #[trigger] conv_cell_pending(*self, 0, 0, xx, yy) implies conv_cell_zero(
                p0@,
                p1@,
                p2@,
                *self,
                xx,
                yy,
            ) by {
                crate::lemma_pidx_bound(mw as int, mh as int, xx, yy);
            }
        }
        let mut y: usize = 0;
        while y < h
            invariant
                self.wf(),
                w == self.width,
                h == self.height,
                mw == self.mwidth,
                mh == self.mheight,
                y <= h,
                p0@.len() == mw * mh,
                p1@.len() == mw * mh,
                p2@.len() == mw * mh,
                conv_done_upto(p0@, p1@, p2@, *self, to_ycbcr, y as int, 0),
                conv_zero_from(p0@, p1@, p2@, *self, y as int, 0),
            decreases h - y,
        {
            let mut x: usize = 0;
            while x < w
                invariant
                    self.wf(),
                    w == self.width,
                    h == self.height,
                    mw == self.mwidth,
                    mh == self.mheight,
                    y < h,
                    x <= w,
                    p0@.len() == mw * mh,
                    p1@.len() == mw * mh,
                    p2@.len() == mw * mh,
                    conv_done_upto(p0@, p1@, p2@, *self, to_ycbcr, y as int, x as int),
                    conv_zero_from(p0@, p1@, p2@, *self, y as int, x as int),
                decreases w - x,
            {
                proof {
                    crate::lemma_pidx_bound(mw as int, mh as int, x as int, y as int);
                    crate::lemma_pidx_bound(w as int, h as int, x as int, y as int);
                    vstd::arithmetic::mul::lemma_mul_upper_bound(
                        w as int,
                        MAX_DIM as int,
                        h as int,
                        MAX_DIM as int,
                    );
                    vstd::arithmetic::mul::lemma_mul_upper_bound(
                        mw as int,
                        MAX_PAD as int,
                        mh as int,
                        MAX_PAD as int,
                    );
                    vstd::arithmetic::mul::lemma_mul_inequality(
                        (y * w + x + 1) as int,
                        (w * h) as int,
                        3,
                    );
                }
                let io = (y * w + x) * 3;
                let r = self.original_image[io];
                let g = self.original_image[io + 1];
                let b = self.original_image[io + 2];
                let (v0, v1, v2) = if to_ycbcr {
                    color::rgb_to_ycbcr_pixel(r, g, b)
                } else {
                    (r, g, b)
                };
                let j = y * mw + x;
                p0[j] = v0;
                p1[j] = v1;
                p2[j] = v2;
                x = x + 1;
                proof {
                    let xi = x as int;
                    let yi = y as int;
                    assert forall|xx: int, yy: int| #[trigger] conv_cell_done(
                        *self,
                        yi,
                        xi,
                        xx,
                        yy,
                    ) implies conv_cell_ok(p0@, p1@, p2@, *self, to_ycbcr, xx, yy) by {
                        crate::lemma_pidx(mw as int, xx, yy);
                        crate::lemma_pidx(mw as int, xi - 1, yi);
                        crate::lemma_pidx_bound(mw as int, mh as int, xx, yy);
                        if !(xx == xi - 1 && yy == yi) {
                            assert(conv_cell_done(*self, yi, xi - 1, xx, yy));
                        }
                    }
                    assert forall|xx: int, yy: int| #[trigger] conv_cell_pending(
                        *self,
                        yi,
                        xi,
                        xx,
                        yy,
                    ) implies conv_cell_zero(p0@, p1@, p2@, *self, xx, yy) by {
                        crate::lemma_pidx(mw as int, xx, yy);
                        crate::lemma_pidx(mw as int, xi - 1, yi);
                        crate::lemma_pidx_bound(mw as int, mh as int, xx, yy);
                        assert(conv_cell_pending(*self, yi, xi - 1, xx, yy));
                    }
                }
            }
            proof {
                let yi = y as int;
                assert forall|xx: int, yy: int| #[trigger] conv_cell_done(
                    *self,
                    yi + 1,
                    0,
                    xx,
                    yy,
                ) implies conv_cell_ok(p0@, p1@, p2@, *self, to_ycbcr, xx, yy) by {
                    assert(conv_cell_done(*self, yi, self.width as int, xx, yy));
                }
                assert forall|xx: int, yy: int| #[trigger] conv_cell_pending(
                    *self,
                    yi + 1,
                    0,
                    xx,
                    yy,
                ) implies conv_cell_zero(p0@, p1@, p2@, *self, xx, yy) by {
                    assert(conv_cell_pending(*self, yi, self.width as int, xx, yy));
                }
            }
            y = y + 1;
        }
        (p0, p1, p2)
    }
}

/// A displayed cell `(xx, yy)` lies before position `(x, y)` in row-major
/// processing order.
pub open spec fn conv_cell_done(img: MyImage, y: int, x: int, xx: int, yy: int) -> bool {
    0 <= xx < img.width && 0 <= yy < img.height && (yy < y || (yy == y && xx < x))
}

/// A padded cell `(xx, yy)` has not yet been processed at position `(x, y)`.
pub open spec fn conv_cell_pending(img: MyImage, y: int, x: int, xx: int, yy: int) -> bool {
    0 <= xx < img.mwidth && 0 <= yy < img.mheight && !conv_cell_done(img, y, x, xx, yy)
}

/// Fully converted planes installed in an image give the plane-level
/// conversion predicates.
proof fn lemma_conv_result(
    post: MyImage,
    pre: MyImage,
    gp0: Seq<u8>,
    gp1: Seq<u8>,
    gp2: Seq<u8>,
    to_ycbcr: bool,
)
    requires
        pre.wf(),
        MyImage::same_but_planes(pre, post),
        post.image_converted@.len() == 3,
        post.image_converted@[0]@ == gp0,
        post.image_converted@[1]@ == gp1,
        post.image_converted@[2]@ == gp2,
        gp0.len() == pre.mwidth * pre.mheight,
        gp1.len() == pre.mwidth * pre.mheight,
        gp2.len() == pre.mwidth * pre.mheight,
        conv_done_upto(gp0, gp1, gp2, pre, to_ycbcr, pre.height as int, 0),
        conv_zero_from(gp0, gp1, gp2, pre, pre.height as int, 0),
    ensures
        post.planes_wf(),
        to_ycbcr ==> MyImage::planes_are_ycbcr(post, pre),
        !to_ycbcr ==> MyImage::planes_are_rgb(post, pre),
        MyImage::padding_holds(post, 0),
{
    let h = pre.height as int;
    if to_ycbcr {
        assert forall|x: int, y: int| 0 <= x < post.width && 0 <= y < post.height implies {
            let r = pre.orig_chan(x, y, 0);
            let g = pre.orig_chan(x, y, 1);
            let b = pre.orig_chan(x, y, 2);
            &&& #[trigger] post.plane_at(0, x, y) == color::y_of(r, g, b)
            &&& post.plane_at(1, x, y) == color::cb_of(r, g, b)
            &&& post.plane_at(2, x, y) == color::cr_of(r, g, b)
        } by {
            assert(conv_cell_done(pre, h, 0, x, y));
        }
    } else {
        assert forall|i: int, x: int, y: int|
            0 <= i < 3 && 0 <= x < post.width && 0 <= y < post.height implies #[trigger] post.plane_at(
            i,
            x,
            y,
        ) == pre.orig_chan(x, y, i) by {
            assert(conv_cell_done(pre, h, 0, x, y));
        }
    }
    assert forall|i: int, x: int, y: int|
        0 <= i < 3 && 0 <= x < post.mwidth && 0 <= y < post.mheight && !(x < post.width && y
            < post.height) implies #[trigger] post.plane_at(i, x, y) == 0 by {
        assert(conv_cell_pending(pre, h, 0, x, y));
    }
}

/// Copy the byte at index `sj` over the byte at index `j` in every plane
/// from `st` on; planes below `st` are left untouched.
fn copy_cell(planes: &mut Vec<Vec<u8>>, st: usize, j: usize, sj: usize)
    requires
        old(planes)@.len() == 3,
        st <= 1,
        forall|i: int| 0 <= i < 3 ==> j < (#[trigger] old(planes)@[i])@.len(),
        forall|i: int| 0 <= i < 3 ==> sj < (#[trigger] old(planes)@[i])@.len(),
    ensures
        final(planes)@.len() == 3,
        forall|i: int|
            st <= i < 3 ==> (#[trigger] final(planes)@[i])@ == old(planes)@[i]@.update(
                j as int,
                old(planes)@[i]@[sj as int],
            ),
        forall|i: int| 0 <= i < st ==> #[trigger] final(planes)@[i] == old(planes)@[i],
{
    let mut i: usize = st;
    while i < 3
        invariant
            planes@.len() == 3,
            st <= i <= 3,
            forall|k: int| 0 <= k < 3 ==> j < (#[trigger] old(planes)@[k])@.len(),
            forall|k: int| 0 <= k < 3 ==> sj < (#[trigger] old(planes)@[k])@.len(),
            forall|k: int|
                st <= k < i ==> (#[trigger] planes@[k])@ == old(planes)@[k]@.update(
                    j as int,
                    old(planes)@[k]@[sj as int],
                ),
            forall|k: int|
                (0 <= k < st || i <= k < 3) ==> #[trigger] planes@[k] == old(planes)@[k],
        decreases 3 - i,
    {
        let v = planes[i][sj];
        planes[i][j] = v;
        i = i + 1;
    }
}

/// Horizontal sampling step of a subsampling pattern: every `src_step`-th
/// column is kept and replicated.
pub open spec fn src_step(pattern: int) -> int {
    if pattern == 2 || pattern == 3 {
        2
    } else if pattern == 4 || pattern == 5 {
        4
    } else {
        1
    }
}

/// Whether a subsampling pattern collapses each pair of rows onto the upper
/// one.
pub open spec fn src_halves_rows(pattern: int) -> bool {
    pattern == 1 || pattern == 3 || pattern == 5
}

/// Column that pixel column `x` is sampled from under a pattern.
pub open spec fn subsample_src_x(pattern: int, x: int) -> int {
    x - x % src_step(pattern)
}

/// Row that pixel row `y` is sampled from under a pattern.
pub open spec fn subsample_src_y(pattern: int, y: int) -> int {
    if src_halves_rows(pattern) {
        y - y % 2
    } else {
        y
    }
}

/// The source pixel of a subsampling pattern lies at or before its target,
/// and is its own source.
proof fn lemma_src_in_range(pattern: int, x: int, y: int)
    requires
        0 <= x,
        0 <= y,
    ensures
        0 <= subsample_src_x(pattern, x) <= x,
        0 <= subsample_src_y(pattern, y) <= y,
        subsample_src_x(pattern, subsample_src_x(pattern, x)) == subsample_src_x(pattern, x),
        subsample_src_y(pattern, subsample_src_y(pattern, y)) == subsample_src_y(pattern, y),
{
    let k = src_step(pattern);
    vstd::arithmetic::div_mod::lemma_fundamental_div_mod(x, k);
    vstd::arithmetic::div_mod::lemma_mod_bound(x, k);
    vstd::arithmetic::div_mod::lemma_mod_multiples_basic(x / k, k);
    vstd::arithmetic::div_mod::lemma_fundamental_div_mod(y, 2);
    vstd::arithmetic::div_mod::lemma_mod_bound(y, 2);
    vstd::arithmetic::div_mod::lemma_mod_multiples_basic(y / 2, 2);
}

/// A displayed cell of plane `i` that the subsampling pass has already
/// rewritten at cursor `(y, x)`.
pub open spec fn ss_written(img: MyImage, st: int, y: int, x: int, i: int, xx: int, yy: int) -> bool {
    &&& st <= i < 3
    &&& 0 <= xx < img.width
    &&& 0 <= yy < img.height
    &&& (yy < y || (yy == y && xx < x))
}

/// Every rewritten cell holds the value of its source pixel in `pre`.
pub open spec fn ss_done_upto(post: MyImage, pre: MyImage, st: int, pat: int, y: int, x: int) -> bool {
    forall|i: int, xx: int, yy: int|
        #[trigger] ss_written(post, st, y, x, i, xx, yy) ==> post.plane_at(i, xx, yy)
            == pre.plane_at(i, subsample_src_x(pat, xx), subsample_src_y(pat, yy))
}

/// Every cell the subsampling pass has not rewritten holds its old value.
pub open spec fn ss_same_from(post: MyImage, pre: MyImage, st: int, y: int, x: int) -> bool {
    forall|i: int, xx: int, yy: int|
        0 <= i < 3 && 0 <= xx < post.mwidth && 0 <= yy < post.mheight && !ss_written(
            post,
            st,
            y,
            x,
            i,
            xx,
            yy,
        ) ==> #[trigger] post.plane_at(i, xx, yy) == pre.plane_at(i, xx, yy)
}

/// Result of the subsampling pass: planes from `st` on hold their pattern
/// sources over the displayed region, and everything else is unchanged.
pub open spec fn ss_result(post: MyImage, pre: MyImage, st: int, pat: int) -> bool {
    &&& forall|i: int, x: int, y: int|
        st <= i < 3 && 0 <= x < post.width && 0 <= y < post.height ==> #[trigger] post.plane_at(
            i,
            x,
            y,
        ) == pre.plane_at(i, subsample_src_x(pat, x), subsample_src_y(pat, y))
    &&& forall|i: int, x: int, y: int|
        0 <= i < 3 && 0 <= x < post.mwidth && 0 <= y < post.mheight && !(st <= i && x < post.width
            && y < post.height) ==> #[trigger] post.plane_at(i, x, y) == pre.plane_at(i, x, y)
}

/// While the subsampling pass stands at displayed cell `(x, y)`, the source
/// pixel of that cell still holds its original value in every plane: sampled
/// pixels are their own sources, so the pass never overwrites one.
proof fn lemma_src_reads_old(cur: MyImage, pre: MyImage, st: int, pat: int, y: int, x: int)
    requires
        0 <= st <= 3,
        cur.width == pre.width,
        cur.height == pre.height,
        cur.mwidth == pre.mwidth,
        cur.mheight == pre.mheight,
        0 <= x < cur.width,
        0 <= y < cur.height,
        cur.width <= cur.mwidth,
        cur.height <= cur.mheight,
        ss_done_upto(cur, pre, st, pat, y, x),
        ss_same_from(cur, pre, st, y, x),
    ensures
        forall|i: int|
            st <= i < 3 ==> #[trigger] cur.plane_at(i, subsample_src_x(pat, x), subsample_src_y(pat, y))
                == pre.plane_at(i, subsample_src_x(pat, x), subsample_src_y(pat, y)),
{
    let sx = subsample_src_x(pat, x);
    let sy = subsample_src_y(pat, y);
    lemma_src_in_range(pat, x, y);
    assert forall|i: int| st <= i < 3 implies #[trigger] cur.plane_at(i, sx, sy) == pre.plane_at(
        i,
        sx,
        sy,
    ) by {
        if sy < y || (sy == y && sx < x) {
            assert(ss_written(cur, st, y, x, i, sx, sy));
        } else {
            assert(!ss_written(cur, st, y, x, i, sx, sy));
        }
    }
}

/// The channel value the conversion pass writes for plane `i` at `(x, y)`:
/// the YCbCr transform of the original pixel, or its plain RGB channel.
pub open spec fn converted_chan(pre: MyImage, use_ycbcr: bool, i: int, x: int, y: int) -> int {
    let r = pre.orig_chan(x, y, 0);
    let g = pre.orig_chan(x, y, 1);
    let b = pre.orig_chan(x, y, 2);
    if use_ycbcr {
        if i == 0 {
            color::y_of(r, g, b)
        } else if i == 1 {
            color::cb_of(r, g, b)
        } else {
            color::cr_of(r, g, b)
        }
    } else {
        pre.orig_chan(x, y, i)
    }
}

/// The planes after the whole preparation pass: every displayed byte of
/// plane `i` holds the converted channel of its subsampling source pixel
/// (the luma plane keeps its own pixels when the planes are YCbCr), and
/// the padding region holds the neutral value.
pub open spec fn prepared_planes(post: MyImage, pre: MyImage, use_ycbcr: bool, pattern: int) -> bool {
    let st = if use_ycbcr {
        1int
    } else {
        0int
    };
    &&& forall|i: int, x: int, y: int|
        0 <= i < 3 && 0 <= x < post.width && 0 <= y < post.height ==> #[trigger] post.plane_at(
            i,
            x,
            y,
        ) == converted_chan(
            pre,
            use_ycbcr,
            i,
            if i >= st {
                subsample_src_x(pattern, x)
            } else {
                x
            },
            if i >= st {
                subsample_src_y(pattern, y)
            } else {
                y
            },
        )
    &&& MyImage::padding_holds(post, 0x80)
}

/// Composing the conversion, padding and subsampling passes yields the
/// prepared planes.
pub proof fn lemma_prepared_planes(
    pre: MyImage,
    conv: MyImage,
    filled: MyImage,
    post: MyImage,
    use_ycbcr: bool,
    pattern: int,
)
    requires
        pre.original_image == post.original_image,
        pre.width == post.width,
        conv.width == post.width && conv.height == post.height,
        conv.mwidth == post.mwidth && conv.mheight == post.mheight,
        post.width <= post.mwidth && post.height <= post.mheight,
        use_ycbcr ==> MyImage::planes_are_ycbcr(conv, pre),
        !use_ycbcr ==> MyImage::planes_are_rgb(conv, pre),
        MyImage::same_but_planes(conv, filled),
        MyImage::displayed_planes_same(conv, filled),
        MyImage::padding_holds(filled, 0x80),
        MyImage::same_but_planes(filled, post),
        ss_result(post, filled, if use_ycbcr { 1int } else { 0int }, pattern),
    ensures
        prepared_planes(post, pre, use_ycbcr, pattern),
{
    let st: int = if use_ycbcr {
        1
    } else {
        0
    };
    assert forall|i: int, x: int, y: int|
        0 <= i < 3 && 0 <= x < post.width && 0 <= y < post.height implies #[trigger] post.plane_at(
        i,
        x,
        y,
    ) == converted_chan(
        pre,
        use_ycbcr,
        i,
        if i >= st {
            subsample_src_x(pattern, x)
        } else {
            x
        },
        if i >= st {
            subsample_src_y(pattern, y)
        } else {
            y
        },
    ) by {
        lemma_src_in_range(pattern, x, y);
        if i >= st {
            let sx = subsample_src_x(pattern, x);
            let sy = subsample_src_y(pattern, y);
            assert(post.plane_at(i, x, y) == filled.plane_at(i, sx, sy));
            assert(filled.plane_at(i, sx, sy) == conv.plane_at(i, sx, sy));
            if use_ycbcr {
                assert(conv.plane_at(0, sx, sy) == color::y_of(
                    pre.orig_chan(sx, sy, 0),
                    pre.orig_chan(sx, sy, 1),
                    pre.orig_chan(sx, sy, 2),
                ));
            }
        } else {
            assert(post.plane_at(i, x, y) == filled.plane_at(i, x, y));
            assert(filled.plane_at(i, x, y) == conv.plane_at(i, x, y));
            assert(conv.plane_at(0, x, y) == color::y_of(
                pre.orig_chan(x, y, 0),
                pre.orig_chan(x, y, 1),
                pre.orig_chan(x, y, 2),
            ));
        }
    }
    assert forall|i: int, x: int, y: int|
        0 <= i < 3 && 0 <= x < post.mwidth && 0 <= y < post.mheight && !(x < post.width && y
            < post.height) implies #[trigger] post.plane_at(i, x, y) == 0x80 by {
        assert(post.plane_at(i, x, y) == filled.plane_at(i, x, y));
    }
}

/// The prepared-planes statement only reads the original bytes and the
/// displayed width of its reference image, so it transfers between
/// reference states that share them.
pub proof fn lemma_prepared_transfer(
    post: MyImage,
    p1: MyImage,
    p2: MyImage,
    use_ycbcr: bool,
    pattern: int,
)
    requires
        p1.original_image == p2.original_image,
        p1.width == p2.width,
        prepared_planes(post, p1, use_ycbcr, pattern),
    ensures
        prepared_planes(post, p2, use_ycbcr, pattern),
{
    let st: int = if use_ycbcr {
        1
    } else {
        0
    };
    assert forall|i: int, x: int, y: int|
        0 <= i < 3 && 0 <= x < post.width && 0 <= y < post.height implies #[trigger] post.plane_at(
        i,
        x,
        y,
    ) == converted_chan(
        p2,
        use_ycbcr,
        i,
        if i >= st {
            subsample_src_x(pattern, x)
        } else {
            x
        },
        if i >= st {
            subsample_src_y(pattern, y)
        } else {
            y
        },
    ) by {
        let sx = if i >= st {
            subsample_src_x(pattern, x)
        } else {
            x
        };
        let sy = if i >= st {
            subsample_src_y(pattern, y)
        } else {
            y
        };
        assert(converted_chan(p1, use_ycbcr, i, sx, sy) == converted_chan(p2, use_ycbcr, i, sx, sy));
    }
}

/// The pixel the quad-tree visualization pass paints before partitioning:
/// the original image carried through the colorspace transform, the
/// subsampling pattern, and the inverse transform.
pub open spec fn vis_pixel(
    pre: MyImage,
    use_ycbcr: bool,
    pattern: int,
    x: int,
    y: int,
    c: int,
) -> int {
    let sx = subsample_src_x(pattern, x);
    let sy = subsample_src_y(pattern, y);
    if use_ycbcr {
        let yv = converted_chan(pre, true, 0, x, y);
        let cb = converted_chan(pre, true, 1, sx, sy);
        let cr = converted_chan(pre, true, 2, sx, sy);
        if c == 0 {
            color::r_of(yv, cb, cr)
        } else if c == 1 {
            color::g_of(yv, cb, cr)
        } else {
            color::b_of(yv, cb, cr)
        }
    } else {
        converted_chan(pre, false, c, sx, sy)
    }
}

/// Prepared planes read back through the output pass give the
/// visualization pixels.
pub proof fn lemma_visualized(pre: MyImage, mid: MyImage, post: MyImage, use_ycbcr: bool, pattern: int)
    requires
        pre.original_image == mid.original_image,
        pre.width == mid.width,
        mid.width == post.width && mid.height == post.height,
        mid.mwidth == post.mwidth && mid.mheight == post.mheight,
        post.width <= post.mwidth && post.height <= post.mheight,
        prepared_planes(mid, pre, use_ycbcr, pattern),
        use_ycbcr ==> MyImage::output_is_inv_ycbcr(post, mid),
        !use_ycbcr ==> MyImage::output_is_planes(post, mid),
    ensures
        forall|x: int, y: int, c: int|
            0 <= x < post.width && 0 <= y < post.height && 0 <= c < 3 ==> #[trigger] post.out_chan(
                x,
                y,
                c,
            ) == vis_pixel(pre, use_ycbcr, pattern, x, y, c),
{
    assert forall|x: int, y: int, c: int|
        0 <= x < post.width && 0 <= y < post.height && 0 <= c < 3 implies #[trigger] post.out_chan(
        x,
        y,
        c,
    ) == vis_pixel(pre, use_ycbcr, pattern, x, y, c) by {
        lemma_src_in_range(pattern, x, y);
        if use_ycbcr {
            assert(post.out_chan(x, y, 0) == color::r_of(
                mid.plane_at(0, x, y),
                mid.plane_at(1, x, y),
                mid.plane_at(2, x, y),
            ));
        }
        assert(mid.plane_at(0, x, y) == converted_chan(pre, use_ycbcr, 0, if use_ycbcr {
            x
        } else {
            subsample_src_x(pattern, x)
        }, if use_ycbcr {
            y
        } else {
            subsample_src_y(pattern, y)
        }));
        assert(mid.plane_at(1, x, y) == converted_chan(
            pre,
            use_ycbcr,
            1,
            subsample_src_x(pattern, x),
            subsample_src_y(pattern, y),
        ));
        assert(mid.plane_at(2, x, y) == converted_chan(
            pre,
            use_ycbcr,
            2,
            subsample_src_x(pattern, x),
            subsample_src_y(pattern, y),
        ));
    }
}

/// A padding cell of plane `i` that lies before position `(y, x)` in
/// row-major order over the padded grid.
pub open spec fn pad_cell(img: MyImage, y: int, x: int, i: int, xx: int, yy: int) -> bool {
    &&& 0 <= i < 3
    &&& 0 <= xx < img.mwidth
    &&& 0 <= yy < img.mheight
    &&& !(xx < img.width && yy < img.height)
    &&& (yy < y || (yy == y && xx < x))
}

/// A cell of plane `i` that the padding pass has not written: either inside
/// the displayed region, or not yet reached.
pub open spec fn live_cell(img: MyImage, y: int, x: int, i: int, xx: int, yy: int) -> bool {
    &&& 0 <= i < 3
    &&& 0 <= xx < img.mwidth
    &&& 0 <= yy < img.mheight
    &&& ((xx < img.width && yy < img.height) || !(yy < y || (yy == y && xx < x)))
}

/// Every processed padding cell holds the neutral value.
pub open spec fn pad_done_upto(img: MyImage, y: int, x: int) -> bool {
    forall|i: int, xx: int, yy: int|
        #[trigger] pad_cell(img, y, x, i, xx, yy) ==> img.plane_at(i, xx, yy) == 0x80
}

/// Every cell the padding pass has not written still holds its old value.
pub open spec fn pad_same_from(pre: MyImage, post: MyImage, y: int, x: int) -> bool {
    forall|i: int, xx: int, yy: int|
        #[trigger] live_cell(post, y, x, i, xx, yy) ==> post.plane_at(i, xx, yy) == pre.plane_at(
            i,
            xx,
            yy,
        )
}

/// Pixel `(xx, yy)` of the output buffer holds the inverse transform of the
/// planes of `img`.
pub open spec fn emit_cell_ok(
    out: Seq<u8>,
    img: MyImage,
    from_ycbcr: bool,
    xx: int,
    yy: int,
) -> bool {
    let c0 = img.plane_at(0, xx, yy);
    let c1 = img.plane_at(1, xx, yy);
    let c2 = img.plane_at(2, xx, yy);
    let o = (yy * img.width + xx) * 3;
    &&& out[o] as int == if from_ycbcr {
        color::r_of(c0, c1, c2)
    } else {
        c0
    }
    &&& out[o + 1] as int == if from_ycbcr {
        color::g_of(c0, c1, c2)
    } else {
        c1
    }
    &&& out[o + 2] as int == if from_ycbcr {
        color::b_of(c0, c1, c2)
    } else {
        c2
    }
}

/// Every pixel before position `(y, x)` holds its output value.
pub open spec fn emit_done_upto(
    out: Seq<u8>,
    img: MyImage,
    from_ycbcr: bool,
    y: int,
    x: int,
) -> bool {
    forall|xx: int, yy: int|
        #[trigger] conv_cell_done(img, y, x, xx, yy) ==> emit_cell_ok(out, img, from_ycbcr, xx, yy)
}

/// The three output bytes of an earlier pixel lie before those of a later one.
proof fn lemma_pixel_order(w: int, xx: int, yy: int, x: int, y: int)
    requires
        0 <= xx < w,
        0 <= yy,
        0 <= x < w,
        0 <= y,
        yy < y || (yy == y && xx < x),
    ensures
        (yy * w + xx) * 3 + 2 < (y * w + x) * 3,
{
    if yy < y {
        vstd::arithmetic::mul::lemma_mul_inequality(yy + 1, y, w);
        assert((yy + 1) * w == yy * w + w) by {
            vstd::arithmetic::mul::lemma_mul_is_distributive_add_other_way(w, yy, 1);
        }
    }
}

/// A fully emitted output buffer installed in an image gives the image-level
/// output predicates.
proof fn lemma_emit_result(post: MyImage, pre: MyImage, from_ycbcr: bool)
    requires
        pre.wf(),
        pre.planes_wf(),
        MyImage::same_but_output(pre, post),
        emit_done_upto(post.final_image@, pre, from_ycbcr, pre.height as int, 0),
    ensures
        from_ycbcr ==> MyImage::output_is_inv_ycbcr(post, pre),
        !from_ycbcr ==> MyImage::output_is_planes(post, pre),
{
    let h = pre.height as int;
    if from_ycbcr {
        assert forall|x: int, y: int| 0 <= x < post.width && 0 <= y < post.height implies {
            let cy = pre.plane_at(0, x, y);
            let cb = pre.plane_at(1, x, y);
            let cr = pre.plane_at(2, x, y);
            &&& #[trigger] post.out_chan(x, y, 0) == color::r_of(cy, cb, cr)
            &&& post.out_chan(x, y, 1) == color::g_of(cy, cb, cr)
            &&& post.out_chan(x, y, 2) == color::b_of(cy, cb, cr)
        } by {
            assert(conv_cell_done(pre, h, 0, x, y));
        }
    } else {
        assert forall|x: int, y: int, c: int|
            0 <= x < post.width && 0 <= y < post.height && 0 <= c < 3 implies #[trigger] post.out_chan(
            x,
            y,
            c,
        ) == pre.plane_at(c, x, y) by {
            assert(conv_cell_done(pre, h, 0, x, y));
        }
    }
}

/// Cell `(xx, yy)` of the planes holds its converted value.
pub open spec fn conv_cell_ok(
    p0: Seq<u8>,
    p1: Seq<u8>,
    p2: Seq<u8>,
    img: MyImage,
    to_ycbcr: bool,
    xx: int,
    yy: int,
) -> bool {
    let r = img.orig_chan(xx, yy, 0);
    let g = img.orig_chan(xx, yy, 1);
    let b = img.orig_chan(xx, yy, 2);
    let j = pidx(img.mwidth as int, xx, yy);
    &&& p0[j] as int == if to_ycbcr {
        color::y_of(r, g, b)
    } else {
        r
    }
    &&& p1[j] as int == if to_ycbcr {
        color::cb_of(r, g, b)
    } else {
        g
    }
    &&& p2[j] as int == if to_ycbcr {
        color::cr_of(r, g, b)
    } else {
        b
    }
}

/// Cell `(xx, yy)` of the planes holds zero.
pub open spec fn conv_cell_zero(p0: Seq<u8>, p1: Seq<u8>, p2: Seq<u8>, img: MyImage, xx: int, yy: int) -> bool {
    let j = pidx(img.mwidth as int, xx, yy);
    &&& p0[j] == 0u8
    &&& p1[j] == 0u8
    &&& p2[j] == 0u8
}

/// Every processed cell holds its converted value.
pub open spec fn conv_done_upto(
    p0: Seq<u8>,
    p1: Seq<u8>,
    p2: Seq<u8>,
    img: MyImage,
    to_ycbcr: bool,
    y: int,
    x: int,
) -> bool {
    forall|xx: int, yy: int|
        #[trigger] conv_cell_done(img, y, x, xx, yy) ==> conv_cell_ok(p0, p1, p2, img, to_ycbcr, xx, yy)
}

/// Every unprocessed cell still holds zero.
pub open spec fn conv_zero_from(
    p0: Seq<u8>,
    p1: Seq<u8>,
    p2: Seq<u8>,
    img: MyImage,
    y: int,
    x: int,
) -> bool {
    forall|xx: int, yy: int|
        #[trigger] conv_cell_pending(img, y, x, xx, yy) ==> conv_cell_zero(p0, p1, p2, img, xx, yy)
}

/// Clamp an integer color value to a byte.
pub fn min_max_color(color_value: i32) -> (res: u8)
    ensures
        res as int == color::clamp255(color_value as int),
{
    if color_value > 255 {
        255
    } else if color_value < 0 {
        0
    } else {
        color_value as u8
    }
}

} // verus!
