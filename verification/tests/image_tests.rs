use jpegview::color;
use jpegview::my_image::{min_max_color, MyImage};

fn gray_image(w: usize, h: usize, v: u8) -> MyImage {
    MyImage::new(vec![v; w * h * 3], w, h)
}

#[test]
fn round_up_size_picks_smallest_multiples() {
    let mut img = gray_image(10, 7, 0);
    img.round_up_size(8);
    assert_eq!(img.mwidth, 16);
    assert_eq!(img.mheight, 8);
    let mut img2 = gray_image(16, 8, 0);
    img2.round_up_size(8);
    assert_eq!(img2.mwidth, 16);
    assert_eq!(img2.mheight, 8);
}

#[test]
fn pixel_conversion_known_values() {
    // Pure red: luma 76, chroma pushed to the extremes.
    let (y, cb, cr) = color::rgb_to_ycbcr_pixel(255, 0, 0);
    assert_eq!(y, 76);
    assert_eq!(cb, 85);
    assert_eq!(cr, 255);
    // Mid gray maps to the neutral YCbCr point exactly.
    let (y2, cb2, cr2) = color::rgb_to_ycbcr_pixel(128, 128, 128);
    assert_eq!((y2, cb2, cr2), (128, 128, 128));
    let (r, g, b) = color::ycbcr_to_rgb_pixel(128, 128, 128);
    assert_eq!((r, g, b), (128, 128, 128));
}

#[test]
fn pixel_round_trip_stays_within_two() {
    for &(r, g, b) in &[
        (0u8, 0u8, 0u8),
        (255, 255, 255),
        (255, 0, 0),
        (0, 255, 0),
        (0, 0, 255),
        (12, 200, 99),
        (250, 3, 128),
    ] {
        let (y, cb, cr) = color::rgb_to_ycbcr_pixel(r, g, b);
        let (r2, g2, b2) = color::ycbcr_to_rgb_pixel(y, cb, cr);
        assert!((r as i32 - r2 as i32).abs() <= 2, "red {r} -> {r2}");
        assert!((g as i32 - g2 as i32).abs() <= 2, "green {g} -> {g2}");
        assert!((b as i32 - b2 as i32).abs() <= 2, "blue {b} -> {b2}");
    }
}

#[test]
fn image_round_trip_over_all_pixels() {
    let mut bytes = Vec::new();
    for i in 0..(8 * 4 * 3) {
        bytes.push(((i * 37) % 256) as u8);
    }
    let mut img = MyImage::new(bytes.clone(), 8, 4);
    img.image_to_ycbcr();
    img.ycbcr_to_image();
    for i in 0..bytes.len() {
        let d = (bytes[i] as i32 - img.final_image[i] as i32).abs();
        assert!(d <= 2, "pixel byte {i} moved by {d}");
    }
}

#[test]
fn rgb_planes_copy_channels() {
    let mut img = gray_image(3, 2, 9);
    img.original_image[0] = 1;
    img.original_image[1] = 2;
    img.original_image[2] = 3;
    img.image_to_rgb();
    assert_eq!(img.image_converted[0][0], 1);
    assert_eq!(img.image_converted[1][0], 2);
    assert_eq!(img.image_converted[2][0], 3);
    img.rgb_to_image();
    assert_eq!(&img.final_image[0..3], &[1, 2, 3]);
}

#[test]
fn fill_outbound_sets_padding_neutral() {
    let mut img = gray_image(3, 2, 10);
    img.round_up_size(4);
    img.image_to_rgb();
    img.fill_outbound();
    // Displayed pixels keep their value, padding is 0x80.
    for y in 0..img.mheight {
        for x in 0..img.mwidth {
            let v = img.image_converted[0][y * img.mwidth + x];
            if x < 3 && y < 2 {
                assert_eq!(v, 10);
            } else {
                assert_eq!(v, 0x80);
            }
        }
    }
}

#[test]
fn subsampling_420_collapses_cells() {
    // Columns hold 10, 20, 30, 40 in every plane of a 4 by 2 image.
    let mut bytes = Vec::new();
    for _y in 0..2 {
        for x in 0..4 {
            let v = (10 * (x + 1)) as u8;
            bytes.extend_from_slice(&[v, v, v]);
        }
    }
    let mut img = MyImage::new(bytes, 4, 2);
    img.image_to_rgb();
    img.fill_outbound();
    img.subsampling(false, 3);
    for plane in 0..3 {
        for y in 0..2 {
            let row: Vec<u8> = (0..4).map(|x| img.image_converted[plane][y * 4 + x]).collect();
            assert_eq!(row, vec![10, 10, 30, 30], "plane {plane} row {y}");
        }
    }
}

#[test]
fn subsampling_patterns_resolve_sources() {
    // 4 by 2 image, distinct values per pixel; pattern 2 keeps rows apart.
    let mut bytes = Vec::new();
    for y in 0..2 {
        for x in 0..4 {
            let v = (y * 4 + x + 1) as u8;
            bytes.extend_from_slice(&[v, v, v]);
        }
    }
    let mut img = MyImage::new(bytes, 4, 2);
    img.image_to_rgb();
    img.subsampling(false, 2);
    let row0: Vec<u8> = (0..4).map(|x| img.image_converted[0][x]).collect();
    let row1: Vec<u8> = (0..4).map(|x| img.image_converted[0][4 + x]).collect();
    assert_eq!(row0, vec![1, 1, 3, 3]);
    assert_eq!(row1, vec![5, 5, 7, 7]);
    // Pattern 0 is the identity.
    let mut img2 = MyImage::new(
        (1..=24u8).collect::<Vec<u8>>(),
        4,
        2,
    );
    img2.image_to_rgb();
    let before = img2.image_converted.clone();
    img2.subsampling(false, 0);
    assert_eq!(before, img2.image_converted);
}

#[test]
fn subsampling_skips_luma_in_ycbcr_mode() {
    let mut bytes = Vec::new();
    for y in 0..2 {
        for x in 0..4 {
            let v = (y * 4 + x + 1) as u8;
            bytes.extend_from_slice(&[v, v, v]);
        }
    }
    let mut img = MyImage::new(bytes, 4, 2);
    img.image_to_rgb();
    let luma_before = img.image_converted[0].clone();
    img.subsampling(true, 5);
    assert_eq!(luma_before, img.image_converted[0]);
    let row0: Vec<u8> = (0..4).map(|x| img.image_converted[1][x]).collect();
    let row1: Vec<u8> = (0..4).map(|x| img.image_converted[1][4 + x]).collect();
    assert_eq!(row0, vec![1, 1, 1, 1]);
    assert_eq!(row1, vec![1, 1, 1, 1]);
}

#[test]
fn min_max_color_clamps() {
    assert_eq!(min_max_color(-5), 0);
    assert_eq!(min_max_color(0), 0);
    assert_eq!(min_max_color(200), 200);
    assert_eq!(min_max_color(300), 255);
}

#[test]
fn subsampling_rejects_an_out_of_range_pattern() {
    let mut img = gray_image(4, 2, 50);
    img.image_to_rgb();
    let before = img.image_converted.clone();
    assert_eq!(
        img.subsampling_checked(false, 6),
        Err(jpegview::quad_mind::QuadMindError::InvalidConfig)
    );
    assert_eq!(before, img.image_converted);
    assert_eq!(img.subsampling_checked(false, 3), Ok(()));
}
