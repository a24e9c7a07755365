use raster_kernels::blur::blur_image;
use raster_kernels::fill::flood_fill;
use raster_kernels::shadow::generate_shadow;

fn uniform(w: usize, h: usize, px: [u8; 4]) -> Vec<u8> {
    let mut v: Vec<u8> = Vec::new();
    for _ in 0..w * h {
        v.extend_from_slice(&px);
    }
    v
}

#[test]
fn blur_radius_zero_is_identity() {
    let data: Vec<u8> = vec![
        1, 2, 3, 4, 5, 6, 7, 8, 9, 10, 11, 12, 13, 14, 15, 16, 17, 18, 19, 20, 21, 22, 23, 24,
    ];
    let out = blur_image(&data, 3, 2, 0);
    assert_eq!(out, data);
}

#[test]
fn blur_preserves_length() {
    let data = uniform(4, 3, [9, 9, 9, 9]);
    for r in [0u32, 1, 2, 5, 100] {
        let out = blur_image(&data, 4, 3, r);
        assert_eq!(out.len(), data.len());
    }
}

#[test]
fn blur_row_exact_means() {
    // One row of three pixels whose channels are 10, 20, 30; radius 1.
    // Horizontal pass: (10+20)/2 = 15, (10+20+30)/3 = 20, (20+30)/2 = 25.
    // Vertical pass over a single row changes nothing.
    let data: Vec<u8> = vec![
        10, 10, 10, 10, 20, 20, 20, 20, 30, 30, 30, 30,
    ];
    let out = blur_image(&data, 3, 1, 1);
    let expected: Vec<u8> = vec![
        15, 15, 15, 15, 20, 20, 20, 20, 25, 25, 25, 25,
    ];
    assert_eq!(out, expected);
}

#[test]
fn blur_truncates_toward_zero() {
    // (0 + 1) / 2 truncates to 0 and (1 + 2) / 2 truncates to 1.
    let data: Vec<u8> = vec![0, 0, 0, 0, 1, 1, 1, 1, 2, 2, 2, 2];
    let out = blur_image(&data, 3, 1, 1);
    let expected: Vec<u8> = vec![0, 0, 0, 0, 1, 1, 1, 1, 1, 1, 1, 1];
    assert_eq!(out, expected);
}

#[test]
fn blur_uniform_image_is_fixed_point() {
    let data = uniform(5, 4, [40, 80, 120, 200]);
    let out = blur_image(&data, 5, 4, 3);
    assert_eq!(out, data);
}

#[test]
fn shadow_unblurred_offsets_and_recolors() {
    // 2x1 source: left pixel alpha 255, right pixel alpha 102.
    // Offset (1, 0): destination x=0 samples out of bounds -> zeroed;
    // destination x=1 samples source x=0 (alpha 255).
    // Shadow color 0x11223380: alpha = 255 * 128 / 255 = 128.
    let data: Vec<u8> = vec![7, 8, 9, 255, 1, 2, 3, 102];
    let out = generate_shadow(&data, 2, 1, 1, 0, 0, 0x1122_3380);
    let expected: Vec<u8> = vec![0, 0, 0, 0, 0x11, 0x22, 0x33, 128];
    assert_eq!(out, expected);
}

#[test]
fn shadow_alpha_scaling_truncates() {
    // Source alpha 100, shadow alpha 100: 100 * 100 / 255 = 39.
    let data: Vec<u8> = vec![0, 0, 0, 100];
    let out = generate_shadow(&data, 1, 1, 0, 0, 0, 0xFF00_0064);
    let expected: Vec<u8> = vec![0xFF, 0, 0, 39];
    assert_eq!(out, expected);
}

#[test]
fn shadow_with_blur_keeps_length() {
    let data = uniform(4, 4, [10, 20, 30, 255]);
    let out = generate_shadow(&data, 4, 4, 1, 1, 2, 0x0000_00FF);
    assert_eq!(out.len(), data.len());
}

#[test]
fn shadow_negative_offset_samples_forward() {
    // Offset (-1, 0): destination x=0 samples source x=1 (alpha 50);
    // destination x=1 samples source x=2, out of bounds for w=2 -> zeroed.
    let data: Vec<u8> = vec![0, 0, 0, 255, 0, 0, 0, 50];
    let out = generate_shadow(&data, 2, 1, -1, 0, 0, 0xAABB_CCFF);
    let expected: Vec<u8> = vec![0xAA, 0xBB, 0xCC, 50, 0, 0, 0, 0];
    assert_eq!(out, expected);
}

#[test]
fn fill_same_color_is_a_no_op() {
    let mut data = uniform(2, 2, [0x10, 0x20, 0x30, 0x40]);
    let before = data.clone();
    let filled = flood_fill(&mut data, 2, 2, 1, 1, 0x1020_3040, 50);
    assert!(!filled);
    assert_eq!(data, before);
}

#[test]
fn fill_out_of_bounds_is_a_no_op() {
    let mut data = uniform(2, 2, [1, 2, 3, 4]);
    let before = data.clone();
    assert!(!flood_fill(&mut data, 2, 2, 2, 0, 0xFFFF_FFFF, 255));
    assert!(!flood_fill(&mut data, 2, 2, 0, 5, 0xFFFF_FFFF, 255));
    assert_eq!(data, before);
}

#[test]
fn fill_saturates_with_full_tolerance() {
    let mut data: Vec<u8> = vec![
        1, 2, 3, 4, 200, 200, 200, 200, 50, 60, 70, 80, 5, 5, 5, 5, 90, 90, 90, 90, 0, 0, 0, 0,
    ];
    let filled = flood_fill(&mut data, 3, 2, 1, 1, 0xDEAD_BEEF, 255);
    assert!(filled);
    let expected = uniform(3, 2, [0xDE, 0xAD, 0xBE, 0xEF]);
    assert_eq!(data, expected);
}

#[test]
fn fill_zero_tolerance_stops_at_region_edge() {
    // Row of three pixels: the two left ones share a color, the right one
    // differs; a zero-tolerance fill from the left covers only the pair.
    let mut data: Vec<u8> = vec![9, 9, 9, 9, 9, 9, 9, 9, 8, 8, 8, 8];
    let filled = flood_fill(&mut data, 3, 1, 0, 0, 0x0102_0304, 0);
    assert!(filled);
    let expected: Vec<u8> = vec![1, 2, 3, 4, 1, 2, 3, 4, 8, 8, 8, 8];
    assert_eq!(data, expected);
}

#[test]
fn fill_tolerance_bridges_close_colors() {
    // The middle pixel differs by 5 per channel; tolerance 5 lets the fill
    // cross it, tolerance 4 does not.
    let base: Vec<u8> = vec![100, 100, 100, 100, 105, 105, 105, 105, 100, 100, 100, 100];
    let mut wide = base.clone();
    assert!(flood_fill(&mut wide, 3, 1, 0, 0, 0, 5));
    assert_eq!(wide, vec![0u8; 12]);
    let mut narrow = base.clone();
    assert!(flood_fill(&mut narrow, 3, 1, 0, 0, 0, 4));
    assert_eq!(narrow, vec![0, 0, 0, 0, 105, 105, 105, 105, 100, 100, 100, 100]);
}

#[test]
fn fill_is_four_connected_only() {
    // Two matching pixels touching only diagonally: the fill takes one.
    let mut data: Vec<u8> = vec![
        9, 9, 9, 9, 0, 0, 0, 0, 0, 0, 0, 0, 9, 9, 9, 9,
    ];
    assert!(flood_fill(&mut data, 2, 2, 0, 0, 0x0505_0505, 0));
    let expected: Vec<u8> = vec![
        5, 5, 5, 5, 0, 0, 0, 0, 0, 0, 0, 0, 9, 9, 9, 9,
    ];
    assert_eq!(data, expected);
}

#[test]
fn fill_overwrites_the_start_pixel() {
    let mut data = uniform(3, 3, [1, 1, 1, 1]);
    assert!(flood_fill(&mut data, 3, 3, 2, 2, 0x0A0B_0C0D, 0));
    assert_eq!(&data[(2 * 3 + 2) * 4..], &[0x0A, 0x0B, 0x0C, 0x0D]);
}

#[test]
fn blur_two_by_two_exact() {
    // 2x2, radius 1.  Horizontal pass: row means (10+20)/2 = 15 and
    // (30+40)/2 = 35; vertical pass: column means (15+35)/2 = 25 everywhere.
    let data: Vec<u8> = vec![
        10, 10, 10, 10, 20, 20, 20, 20, 30, 30, 30, 30, 40, 40, 40, 40,
    ];
    let out = blur_image(&data, 2, 2, 1);
    assert_eq!(out, vec![25u8; 16]);
}

#[test]
fn shadow_blurs_the_silhouette() {
    // 2x1 source with alphas 255 and 0, no offset, shadow alpha 128:
    // the silhouette alphas are 128 and 0, and a radius-1 blur averages
    // them to 64 in both pixels.
    let data: Vec<u8> = vec![9, 9, 9, 255, 9, 9, 9, 0];
    let out = generate_shadow(&data, 2, 1, 0, 0, 1, 0x0000_0080);
    let expected: Vec<u8> = vec![0, 0, 0, 64, 0, 0, 0, 64];
    assert_eq!(out, expected);
}
