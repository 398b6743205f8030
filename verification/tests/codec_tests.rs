use jpegview::jpeg::{assemble_plane, extract_block, Jpeg, JpegSteps};
use jpegview::my_image::MyImage;
use jpegview::quad_mind::{
    decode_quad_mind_blocks, flatten_coefficients, leaf_record, load_quad_mind,
    quad_mind_steps, render_quad_mind_prepare, save_quad_mind,
};
use jpegview::quad_tree::QuadTree;
use jpegview::zigzag::generate_zig_zag_table;

/// The transform kernel the application supplies around the verified
/// pipeline: a plain type-two cosine transform pair.
fn fast_dct(block: &[i32], n: usize) -> Vec<i32> {
    let pi = std::f64::consts::PI;
    let mut out = vec![0i32; n * n];
    for v in 0..n {
        for u in 0..n {
            let mut sum = 0.0f64;
            for y in 0..n {
                for x in 0..n {
                    sum += block[y * n + x] as f64
                        * ((2 * x + 1) as f64 * u as f64 * pi / (2 * n) as f64).cos()
                        * ((2 * y + 1) as f64 * v as f64 * pi / (2 * n) as f64).cos();
                }
            }
            let alpha = |k: usize| if k == 0 { 1.0f64 / 2.0f64.sqrt() } else { 1.0 };
            out[v * n + u] = (alpha(v) * alpha(u) * sum * 2.0 / n as f64).round() as i32;
        }
    }
    out
}

fn fast_idct(coeffs: &[i32], n: usize) -> Vec<i32> {
    let pi = std::f64::consts::PI;
    let mut out = vec![0i32; n * n];
    for y in 0..n {
        for x in 0..n {
            let mut sum = 0.0f64;
            for v in 0..n {
                for u in 0..n {
                    let alpha = |k: usize| if k == 0 { 1.0f64 / 2.0f64.sqrt() } else { 1.0 };
                    sum += alpha(v) * alpha(u) * coeffs[v * n + u] as f64
                        * ((2 * x + 1) as f64 * u as f64 * pi / (2 * n) as f64).cos()
                        * ((2 * y + 1) as f64 * v as f64 * pi / (2 * n) as f64).cos();
                }
            }
            out[y * n + x] = (sum * 2.0 / n as f64).round() as i32;
        }
    }
    out
}

#[test]
fn transform_round_trip_recovers_the_block() {
    let n = 8usize;
    let block: Vec<i32> = (0..64).map(|i| (i * 7 % 255) - 128).collect();
    let f = fast_dct(&block, n);
    let back = fast_idct(&f, n);
    for i in 0..block.len() {
        // The integer rounding of the coefficients costs at most a unit.
        assert!((block[i] - back[i]).abs() <= 1, "sample {i}");
    }
}

fn run_fixed_grid(img: &mut MyImage, jpeg: &Jpeg, use_ycbcr: bool, reverse_order: bool) {
    jpeg.prepare_render(img, use_ycbcr, 0);
    let n = jpeg.block_size;
    let (q_luma, q_chroma) = jpeg.build_q_matrices(n);
    let steps = JpegSteps::new(jpeg, img.mwidth);
    let geo = jpegview::jpeg::grid_geometry(img.mwidth, img.mheight, n);
    let mut planes = Vec::new();
    for plane_index in 0..3 {
        let q = if plane_index == 0 { &q_luma } else { &q_chroma };
        let mut results: Vec<Vec<i32>> = vec![Vec::new(); geo.len()];
        let order: Vec<usize> = if reverse_order {
            (0..geo.len()).rev().collect()
        } else {
            (0..geo.len()).collect()
        };
        for &k in &order {
            let (sx, sy, _) = geo[k];
            let block = extract_block(
                &img.image_converted[plane_index],
                img.mwidth,
                img.mheight,
                sx,
                sy,
                n,
            );
            let mut dct = fast_dct(&block, n);
            steps.quantize_function(sx, q, &mut dct);
            steps.de_quantize_function(sx, q, &mut dct);
            results[k] = fast_idct(&dct, n);
        }
        let mut plane = vec![0u8; img.mwidth * img.mheight];
        assemble_plane(&mut plane, img.mwidth, img.mheight, &geo, &results);
        planes.push(plane);
    }
    img.image_converted = planes;
    if use_ycbcr {
        img.ycbcr_to_image();
    } else {
        img.rgb_to_image();
    }
}

#[test]
fn uniform_gray_survives_the_pipeline() {
    let mut img = MyImage::new(vec![128; 8 * 8 * 3], 8, 8);
    let jpeg = Jpeg::new(8, 90, 1, 2, false, false, false, false);
    run_fixed_grid(&mut img, &jpeg, true, false);
    for &v in &img.final_image {
        assert!((v as i32 - 128).abs() <= 1, "gray moved to {v}");
    }
}

#[test]
fn step_edge_keeps_its_sides_apart() {
    let mut bytes = Vec::new();
    for _y in 0..8 {
        for x in 0..16 {
            let v = if x < 8 { 0u8 } else { 255u8 };
            bytes.extend_from_slice(&[v, v, v]);
        }
    }
    let mut img = MyImage::new(bytes, 16, 8);
    let jpeg = Jpeg::new(8, 10, 1, 2, false, false, false, false);
    run_fixed_grid(&mut img, &jpeg, true, false);
    let mut left = 0u32;
    let mut right = 0u32;
    for y in 0..8 {
        for x in 0..16 {
            let v = img.final_image[(y * 16 + x) * 3] as u32;
            if x < 8 {
                left += v;
            } else {
                right += v;
            }
        }
    }
    assert!(left / 64 <= 20, "left mean {}", left / 64);
    assert!(right / 64 >= 235, "right mean {}", right / 64);
}

#[test]
fn block_order_does_not_change_the_output() {
    let mut bytes = Vec::new();
    for i in 0..(16 * 16 * 3) {
        bytes.push(((i * 31 + 7) % 256) as u8);
    }
    let mut forward = MyImage::new(bytes.clone(), 16, 16);
    let mut backward = MyImage::new(bytes, 16, 16);
    let jpeg = Jpeg::new(8, 75, 1, 2, false, false, false, false);
    run_fixed_grid(&mut forward, &jpeg, true, false);
    run_fixed_grid(&mut backward, &jpeg, true, true);
    assert_eq!(forward.final_image, backward.final_image);
}

#[test]
fn quad_mind_save_load_decode_round_trip() {
    let mut bytes = Vec::new();
    for y in 0..16 {
        for x in 0..16 {
            let v = ((x * 37 + y * 11) % 256) as u8;
            bytes.extend_from_slice(&[v, v, v]);
        }
    }
    let mut img = MyImage::new(bytes, 16, 16);
    let qt = QuadTree::new(50, 4, 8, true, false, 2000);
    let jpeg = Jpeg::new(8, 80, 1, 2, false, false, false, false);
    let leaves = render_quad_mind_prepare(&mut img, &qt, true, 0);
    assert!(!leaves.is_empty());

    let mut records = Vec::new();
    let mut zig_blocks = Vec::new();
    let mut deq_blocks = Vec::new();
    for leaf in &leaves {
        let n = leaf.width_block_size;
        records.push(leaf_record(leaf));
        let (q_luma, q_chroma) = jpeg.build_q_matrices(n);
        let table = generate_zig_zag_table(n);
        let steps = JpegSteps {
            mwidth: img.mwidth,
            block_size: n,
            block_size_index: 0,
            quality_start: 1,
            use_fast_dct: false,
            use_gen_qtable: false,
            use_compression_rate: false,
        };
        for plane_index in 0..3 {
            let q = if plane_index == 0 { &q_luma } else { &q_chroma };
            let block = extract_block(
                &img.image_converted[plane_index],
                img.mwidth,
                img.mheight,
                leaf.box_left,
                leaf.box_top,
                n,
            );
            let dct = fast_dct(&block, n);
            let (zig, deq) = quad_mind_steps(leaf.box_left, &steps, &dct, q, &table);
            zig_blocks.push(zig);
            deq_blocks.push(deq);
        }
    }
    let flat = flatten_coefficients(&zig_blocks);
    let file_bytes = save_quad_mind(&records, &flat, 16, 16, 80, true, false, false, false);
    let loaded = load_quad_mind(&file_bytes).expect("load");
    assert_eq!(loaded.dct_zig_zag, flat);
    let decoded = decode_quad_mind_blocks(&loaded).expect("decode");
    assert_eq!(decoded.geometry.len(), leaves.len());
    // The decoded dequantized blocks equal the ones the encoder produced.
    assert_eq!(decoded.blocks.len(), deq_blocks.len());
    for k in 0..deq_blocks.len() {
        assert_eq!(decoded.blocks[k], deq_blocks[k], "block {k}");
    }
    for (k, leaf) in leaves.iter().enumerate() {
        assert_eq!(
            decoded.geometry[k],
            (leaf.box_left, leaf.box_top, leaf.width_block_size)
        );
    }
}
