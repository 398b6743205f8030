use jpegview::jpeg::{extract_block, write_block, Jpeg, JpegSteps};
use jpegview::quant;
use jpegview::zigzag;

#[test]
fn zig_zag_table_matches_the_classic_order() {
    let t = zigzag::generate_zig_zag_table(8);
    // The canonical 8 by 8 zig-zag positions, row-major.
    let expected: Vec<usize> = vec![
        0, 1, 5, 6, 14, 15, 27, 28, 2, 4, 7, 13, 16, 26, 29, 42, 3, 8, 12, 17, 25, 30, 41, 43, 9,
        11, 18, 24, 31, 40, 44, 53, 10, 19, 23, 32, 39, 45, 52, 54, 20, 22, 33, 38, 46, 51, 55,
        60, 21, 34, 37, 47, 50, 56, 59, 61, 35, 36, 48, 49, 57, 58, 62, 63,
    ];
    assert_eq!(t, expected);
}

#[test]
fn zig_zag_round_trip_is_exact() {
    for n in [2usize, 4, 8, 16] {
        let t = zigzag::generate_zig_zag_table(n);
        let data: Vec<i32> = (0..(n * n) as i32).map(|v| v * 7 - 100).collect();
        let z = zigzag::zig_zag_function(&t, n, &data);
        let back = zigzag::un_zig_zag_function(&t, n, &z);
        assert_eq!(back, data, "block size {n}");
    }
}

#[test]
fn quality_factor_regimes() {
    // Generated family, above and below the midpoint.
    assert_eq!(quant::quality_factor(true, 90), 2000);
    assert_eq!(quant::quality_factor(true, 50), 10000);
    assert_eq!(quant::quality_factor(true, 25), 20000);
    // Base family: the linear map, in hundredths.
    assert_eq!(quant::quality_factor(false, 90), 275);
    assert_eq!(quant::quality_factor(false, 1), 2500);
}

#[test]
fn q_matrix_generation() {
    let base = quant::q_matrix_luma_const();
    let q8 = quant::generate_q_matrix(&base, 8, false);
    assert_eq!(q8[0], 16);
    assert_eq!(q8[7], 61);
    assert_eq!(q8[63], 99);
    // Tiling repeats the 8 by 8 base.
    let q16 = quant::generate_q_matrix(&base, 16, false);
    assert_eq!(q16[16 * 9 + 9], q8[8 + 1]);
    // The generated family is the anti-diagonal ramp.
    let g4 = quant::generate_q_matrix(&base, 4, true);
    assert_eq!(g4, vec![1, 2, 3, 4, 2, 3, 4, 5, 3, 4, 5, 6, 4, 5, 6, 7]);
}

#[test]
fn q_matrix_scaling_floors_at_one() {
    let base = quant::q_matrix_luma_const();
    let mut q = quant::generate_q_matrix(&base, 8, false);
    // Quality 90 under the generated regime: factor 20.00.
    quant::apply_q_matrix_factor(&mut q, 8, 2000);
    // 16 * 2000 / 10000 rounds to 3; small entries floor at 1.
    assert_eq!(q[0], 3);
    let mut q2 = quant::generate_q_matrix(&base, 8, true);
    quant::apply_q_matrix_factor(&mut q2, 8, 0);
    assert!(q2.iter().all(|&v| v == 1));
}

#[test]
fn quantize_rounds_half_away_from_zero() {
    assert_eq!(quant::quantize_coeff(7, 3), 2);
    assert_eq!(quant::quantize_coeff(-7, 3), -2);
    assert_eq!(quant::quantize_coeff(5, 2), 3);
    assert_eq!(quant::quantize_coeff(-5, 2), -3);
    assert_eq!(quant::quantize_coeff(0, 99), 0);
}

#[test]
fn quantize_then_dequantize_moves_at_most_half_a_step() {
    for q in [1u32, 2, 3, 16, 99] {
        for x in -300i32..300 {
            let r = quant::dequantize_coeff(quant::quantize_coeff(x, q), q);
            let d = (x as i64 - r as i64).abs();
            assert!(2 * d <= q as i64, "x {x} step {q} landed on {r}");
        }
    }
}

#[test]
fn extract_and_write_blocks_are_inverse_on_the_block() {
    let mw = 8usize;
    let mh = 8usize;
    let plane: Vec<u8> = (0..64).map(|i| (i * 3 % 251) as u8).collect();
    let b = extract_block(&plane, mw, mh, 2, 4, 4);
    assert_eq!(b.len(), 16);
    assert_eq!(b[0], plane[4 * 8 + 2] as i32 - 128);
    let mut out = vec![0u8; 64];
    write_block(&mut out, mw, mh, 2, 4, 4, &b);
    for y in 0..4 {
        for x in 0..4 {
            assert_eq!(out[(4 + y) * 8 + (2 + x)], plane[(4 + y) * 8 + (2 + x)]);
        }
    }
    assert_eq!(out[0], 0);
}

#[test]
fn quantize_function_applies_the_matrix() {
    let jpeg = Jpeg::new(8, 90, 1, 2, true, false, false, false);
    let (q_luma, _q_chroma) = jpeg.build_q_matrices(8);
    let steps = JpegSteps::new(&jpeg, 16);
    let mut dct: Vec<i32> = vec![100; 64];
    steps.quantize_function(0, &q_luma, &mut dct);
    for i in 0..64 {
        assert_eq!(dct[i], quant::quantize_coeff(100, q_luma[i]));
    }
    steps.de_quantize_function(0, &q_luma, &mut dct);
    for i in 0..64 {
        let d = (100 - dct[i]).abs() as u32;
        assert!(2 * d <= q_luma[i]);
    }
}

#[test]
fn column_step_ramps_toward_full_quality() {
    // At the right edge the ramp approaches quality 100, factor near zero.
    let left = quant::column_step(16, 10, 100, 0);
    let right = quant::column_step(16, 10, 100, 99);
    assert!(left > right);
    assert!(right >= 1);
}
