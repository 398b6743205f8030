//! Pixel-level color transforms between RGB and YCbCr.
//!
//! The transforms are computed in fixed-point arithmetic with coefficients in
//! thousandths, rounding half up: luma is `0.299 R + 0.587 G + 0.114 B`, the
//! chroma channels are offset by 128, and every result is clamped to a byte.
use vstd::prelude::*;

verus! {

/// Clamp an integer to the byte range.
pub open spec fn clamp255(v: int) -> int {
    if v < 0 {
        0
    } else if v > 255 {
        255
    } else {
        v
    }
}

/// Numerator of the luma channel in thousandths, with the rounding offset.
pub open spec fn y_num(r: int, g: int, b: int) -> int {
    299 * r + 587 * g + 114 * b + 500
}

/// Numerator of the blue-difference channel in thousandths.
pub open spec fn cb_num(r: int, g: int, b: int) -> int {
    -168 * r - 331 * g + 500 * b + 128500
}

/// Numerator of the red-difference channel in thousandths.
pub open spec fn cr_num(r: int, g: int, b: int) -> int {
    500 * r - 418 * g - 81 * b + 128500
}

/// Luma of an RGB pixel.
pub open spec fn y_of(r: int, g: int, b: int) -> int {
    clamp255(y_num(r, g, b) / 1000)
}

/// Blue-difference chroma of an RGB pixel.
pub open spec fn cb_of(r: int, g: int, b: int) -> int {
    clamp255(cb_num(r, g, b) / 1000)
}

/// Red-difference chroma of an RGB pixel.
pub open spec fn cr_of(r: int, g: int, b: int) -> int {
    clamp255(cr_num(r, g, b) / 1000)
}

/// Numerator of the red channel recovered from YCbCr: `Y + 1.402 (Cr - 128)`.
pub open spec fn r_num(y: int, cb: int, cr: int) -> int {
    1000 * y + 1402 * cr - 178956
}

/// Numerator of the green channel: `Y - 0.344 (Cb - 128) - 0.714 (Cr - 128)`.
pub open spec fn g_num(y: int, cb: int, cr: int) -> int {
    1000 * y - 344 * cb - 714 * cr + 135924
}

/// Numerator of the blue channel: `Y + 1.772 (Cb - 128)`.
pub open spec fn b_num(y: int, cb: int, cr: int) -> int {
    1000 * y + 1772 * cb - 226316
}

/// A rounded channel value: the numerator already carries the +500 rounding
/// offset, so a negative numerator means the real value is below one half.
pub open spec fn channel_of(num: int) -> int {
    if num < 0 {
        0
    } else {
        clamp255(num / 1000)
    }
}

/// Red channel recovered from a YCbCr pixel.
pub open spec fn r_of(y: int, cb: int, cr: int) -> int {
    channel_of(r_num(y, cb, cr))
}

/// Green channel recovered from a YCbCr pixel.
pub open spec fn g_of(y: int, cb: int, cr: int) -> int {
    channel_of(g_num(y, cb, cr))
}

/// Blue channel recovered from a YCbCr pixel.
pub open spec fn b_of(y: int, cb: int, cr: int) -> int {
    channel_of(b_num(y, cb, cr))
}

/// Convert one RGB pixel to YCbCr.
pub fn rgb_to_ycbcr_pixel(r: u8, g: u8, b: u8) -> (res: (u8, u8, u8))
    ensures
        res.0 == y_of(r as int, g as int, b as int),
        res.1 == cb_of(r as int, g as int, b as int),
        res.2 == cr_of(r as int, g as int, b as int),
{
    let ri = r as i32;
    let gi = g as i32;
    let bi = b as i32;
    assert(0 <= ri <= 255 && 0 <= gi <= 255 && 0 <= bi <= 255);
    let yn: i32 = 299 * ri + 587 * gi + 114 * bi + 500;
    let cbn: i32 = 128500 + 500 * bi - 168 * ri - 331 * gi;
    let crn: i32 = 128500 + 500 * ri - 418 * gi - 81 * bi;
    (clamp_channel(yn / 1000), clamp_channel(cbn / 1000), clamp_channel(crn / 1000))
}

/// Convert one YCbCr pixel back to RGB.
pub fn ycbcr_to_rgb_pixel(y: u8, cb: u8, cr: u8) -> (res: (u8, u8, u8))
    ensures
        res.0 == r_of(y as int, cb as int, cr as int),
        res.1 == g_of(y as int, cb as int, cr as int),
        res.2 == b_of(y as int, cb as int, cr as int),
{
    let yi = y as i32;
    let cbi = cb as i32;
    let cri = cr as i32;
    let rn: i32 = 1000 * yi + 1402 * cri - 178956;
    let gn: i32 = 1000 * yi - 344 * cbi - 714 * cri + 135924;
    let bn: i32 = 1000 * yi + 1772 * cbi - 226316;
    (round_channel(rn), round_channel(gn), round_channel(bn))
}

/// Clamp a non-negative quotient to a byte.
fn clamp_channel(q: i32) -> (res: u8)
    requires
        q >= 0,
    ensures
        res == clamp255(q as int),
{
    if q > 255 {
        255
    } else {
        q as u8
    }
}

/// Division by 1000 leaves a remainder below 1000.
proof fn lemma_d1000(n: int)
    ensures
        n - 1000 < 1000 * (n / 1000) <= n,
{
    vstd::arithmetic::div_mod::lemma_fundamental_div_mod(n, 1000);
    vstd::arithmetic::div_mod::lemma_mod_bound(n, 1000);
}

/// Converting an RGB pixel to YCbCr and back moves every channel by at most
/// two: the fixed-point transforms are near inverses of each other, and each
/// of the four rounding steps costs at most half a unit.
pub proof fn lemma_ycbcr_round_trip(r: int, g: int, b: int)
    requires
        0 <= r <= 255,
        0 <= g <= 255,
        0 <= b <= 255,
    ensures
        ({
            let y = y_of(r, g, b);
            let cb = cb_of(r, g, b);
            let cr = cr_of(r, g, b);
            &&& r - 2 <= r_of(y, cb, cr) <= r + 2
            &&& g - 2 <= g_of(y, cb, cr) <= g + 2
            &&& b - 2 <= b_of(y, cb, cr) <= b + 2
        }),
{
    let yn = y_num(r, g, b);
    let cbn = cb_num(r, g, b);
    let crn = cr_num(r, g, b);
    lemma_d1000(yn);
    lemma_d1000(cbn);
    lemma_d1000(crn);

    // The quotients sit in narrow ranges, so the clamps are nearly inactive.
    let y = y_of(r, g, b);
    let cb = cb_of(r, g, b);
    let cr = cr_of(r, g, b);
    assert(500 <= yn <= 255500);
    assert(1255 <= cbn <= 256000);
    assert(1255 <= crn <= 256000);
    assert(0 <= yn / 1000 <= 255);
    assert(y == yn / 1000);
    // The chroma quotient can reach 256, exactly at the top of its range; the
    // clamp then loses exactly half a unit.
    assert(0 <= cbn / 1000 <= 256);
    assert(0 <= crn / 1000 <= 256);

    // Error of each stored channel against its unrounded numerator.
    let ey = 1000 * y - (yn - 500);
    let ecb = 1000 * cb - (cbn - 500);
    let ecr = 1000 * cr - (crn - 500);
    assert(-499 <= ey <= 500);
    assert(-500 <= ecb <= 500) by {
        if cbn / 1000 == 256 {
            assert(1000 * (cbn / 1000) == 256000);
            assert(cbn == 256000);
        }
    }
    assert(-500 <= ecr <= 500) by {
        if crn / 1000 == 256 {
            assert(1000 * (crn / 1000) == 256000);
            assert(crn == 256000);
        }
    }

    // Red channel.
    let rn = r_num(y, cb, cr);
    assert(1000 * rn == 1000000 * r + (964 * g + 438 * b + 500000 + 1000 * ey + 1402 * ecr));
    if rn < 0 {
        assert(1000 * rn < 0);
        assert(1000000 * r < 701000);
        assert(r == 0);
        assert(r_of(y, cb, cr) == 0);
    } else {
        lemma_d1000(rn);
        let rq = rn / 1000;
        assert(1000000 * rq <= 1000 * rn < 1000000 * rq + 1000000);
        assert(1000000 * (rq - r) <= 2058510);
        assert(1000000 * (rq - r) > -1700000);
        assert(r - 1 <= rq <= r + 2);
        assert(r - 2 <= clamp255(rq) <= r + 2);
    }

    // Green channel.
    let gn = g_num(y, cb, cr);
    assert(1000 * gn == 1000000 * g + (-208 * r - 684 * g - 166 * b + 500000 + 1000 * ey - 344
        * ecb - 714 * ecr));
    if gn < 0 {
        assert(1000000 * g < 799000);
        assert(g == 0);
    } else {
        lemma_d1000(gn);
        let gq = gn / 1000;
        assert(1000000 * gq <= 1000 * gn < 1000000 * gq + 1000000);
        assert(1000000 * (gq - g) <= 1529000);
        assert(1000000 * (gq - g) > -1799000);
        assert(g - 1 <= gq <= g + 1);
        assert(g - 2 <= clamp255(gq) <= g + 2);
    }

    // Blue channel.
    let bn = b_num(y, cb, cr);
    assert(1000 * bn == 1000000 * b + (1304 * r + 468 * g + 500000 + 1000 * ey + 1772 * ecb));
    if bn < 0 {
        assert(1000000 * b < 886000);
        assert(b == 0);
    } else {
        lemma_d1000(bn);
        let bq = bn / 1000;
        assert(1000000 * bq <= 1000 * bn < 1000000 * bq + 1000000);
        assert(1000000 * (bq - b) <= 2337860);
        assert(1000000 * (bq - b) > -1886000);
        assert(b - 1 <= bq <= b + 2);
        assert(b - 2 <= clamp255(bq) <= b + 2);
    }
}

/// Divide a rounded numerator by 1000 and clamp to a byte.
fn round_channel(num: i32) -> (res: u8)
    ensures
        res == channel_of(num as int),
{
    if num < 0 {
        0
    } else {
        clamp_channel(num / 1000)
    }
}

} // verus!
