use jpegview::my_image::MyImage;
use jpegview::quad_tree::{
    build_tree, color_from_histogram, draw_rect, is_accepted_block_size, weighted_average,
    QuadNode, QuadTree,
};

fn image_from(pixels: Vec<u8>, w: usize, h: usize) -> MyImage {
    let mut img = MyImage::new(pixels.clone(), w, h);
    img.final_image = pixels;
    img
}

#[test]
fn weighted_average_of_empty_histogram_is_zero() {
    let hist = vec![0u32; 256];
    assert_eq!(weighted_average(&hist), (0, 0));
}

#[test]
fn weighted_average_exact_values() {
    let mut hist = vec![0u32; 256];
    hist[100] = 10;
    assert_eq!(weighted_average(&hist), (100, 0));
    let mut hist2 = vec![0u32; 256];
    hist2[0] = 1;
    hist2[2] = 1;
    // Mean 1, variance 1, deviation 1.000 in thousandths.
    assert_eq!(weighted_average(&hist2), (1, 1000));
}

#[test]
fn color_from_histogram_combines_with_luma_weights() {
    let mut h0 = vec![0u32; 256];
    let mut h1 = vec![0u32; 256];
    let mut h2 = vec![0u32; 256];
    h0[10] = 4;
    h1[20] = 4;
    h2[30] = 4;
    let (err, rgb) = color_from_histogram(&h0, &h1, &h2);
    assert_eq!(err, 0);
    assert_eq!(rgb, [10, 20, 30]);
}

#[test]
fn accepted_block_sizes_are_the_nine_powers() {
    for n in 0..1024usize {
        let expected = matches!(n, 2 | 4 | 8 | 16 | 32 | 64 | 128 | 256 | 512);
        assert_eq!(is_accepted_block_size(n), expected, "{n}");
    }
}

#[test]
fn constant_image_yields_a_single_leaf() {
    let img = image_from(vec![77; 64 * 64 * 3], 64, 64);
    let qt = QuadTree::new(50, 4, 64, true, false, 1000);
    let root = QuadNode::new(&img, 0, 0, 64, 64, 0);
    let mut leaves = Vec::new();
    build_tree(&qt, root, &mut leaves, &img);
    assert_eq!(leaves.len(), 1);
    let leaf = &leaves[0];
    assert_eq!(
        (leaf.box_left, leaf.box_top, leaf.box_right, leaf.box_bottom),
        (0, 0, 64, 64)
    );
    assert_eq!(leaf.rgb, [77, 77, 77]);
    assert_eq!(leaf.error_milli, 0);
}

#[test]
fn checkerboard_splits_to_the_cell_size() {
    let mut pixels = Vec::new();
    for y in 0..64 {
        for x in 0..64 {
            let v = if ((x / 4) + (y / 4)) % 2 == 0 { 0u8 } else { 255u8 };
            pixels.extend_from_slice(&[v, v, v]);
        }
    }
    let img = image_from(pixels, 64, 64);
    let qt = QuadTree::new(50, 4, 64, true, false, 1000);
    let root = QuadNode::new(&img, 0, 0, 64, 64, 0);
    let mut leaves = Vec::new();
    build_tree(&qt, root, &mut leaves, &img);
    assert_eq!(leaves.len(), 256);
    for leaf in &leaves {
        assert_eq!(leaf.width_block_size, 4);
        assert_eq!(leaf.height_block_size, 4);
    }
}

#[test]
fn leaves_tile_the_root_exactly() {
    // A noisy image forces a mixed decomposition; the leaves must cover
    // the root square once each.
    let mut pixels = Vec::new();
    for y in 0..32 {
        for x in 0..32 {
            let v = ((x * 13 + y * 31) % 256) as u8;
            pixels.extend_from_slice(&[v, v, v]);
        }
    }
    let img = image_from(pixels, 32, 32);
    let qt = QuadTree::new(50, 2, 16, true, false, 5000);
    let root = QuadNode::new(&img, 0, 0, 32, 32, 0);
    let mut leaves = Vec::new();
    build_tree(&qt, root, &mut leaves, &img);
    let mut covered = vec![0u32; 32 * 32];
    for leaf in &leaves {
        assert!(leaf.width_block_size == leaf.height_block_size);
        assert!(is_accepted_block_size(leaf.width_block_size));
        assert!(leaf.width_block_size >= 2 && leaf.width_block_size <= 16);
        for y in leaf.box_top..leaf.box_bottom {
            for x in leaf.box_left..leaf.box_right {
                covered[y * 32 + x] += 1;
            }
        }
    }
    assert!(covered.iter().all(|&c| c == 1));
}

#[test]
fn oversized_regions_always_split() {
    // Constant image, but the root is larger than max_size: it must split
    // down to max_size even with zero error.
    let img = image_from(vec![5; 64 * 64 * 3], 64, 64);
    let qt = QuadTree::new(50, 4, 16, true, false, 1000);
    let root = QuadNode::new(&img, 0, 0, 64, 64, 0);
    let mut leaves = Vec::new();
    build_tree(&qt, root, &mut leaves, &img);
    assert_eq!(leaves.len(), 16);
    assert!(leaves.iter().all(|l| l.width_block_size == 16));
}

#[test]
fn draw_rect_marks_the_border() {
    let mut image = vec![0u8; 8 * 8 * 3];
    draw_rect(&mut image, 8, 8, 1, 1, 5, 4);
    // A corner and an edge pixel are gray on all channels.
    for c in 0..3 {
        assert_eq!(image[(1 * 8 + 1) * 3 + c], 128);
        assert_eq!(image[(1 * 8 + 3) * 3 + c], 128);
        assert_eq!(image[(4 * 8 + 5) * 3 + c], 128);
        assert_eq!(image[(2 * 8 + 1) * 3 + c], 128);
    }
    // An interior pixel is untouched.
    assert_eq!(image[(2 * 8 + 3) * 3], 0);
    // A pixel outside the rectangle is untouched.
    assert_eq!(image[(6 * 8 + 6) * 3], 0);
}

#[test]
fn render_quad_tree_paints_leaf_colors() {
    let mut img = MyImage::new(vec![200; 16 * 16 * 3], 16, 16);
    let qt = QuadTree::new(50, 4, 16, true, false, 1000);
    jpegview::quad_tree::render_quad_tree(&qt, &mut img, false, 0);
    assert_eq!(img.final_image.len(), 16 * 16 * 3);
    assert!(img.final_image.iter().all(|&v| v == 200));
}
