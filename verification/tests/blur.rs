use image_processor::blur_plugin::{process_image, Params};
use image_processor::sqrt::isqrt;

fn prepare_data(width: u32, height: u32) -> Vec<u8> {
    (0..width * height * 4).map(|val| val as u8).collect::<Vec<_>>()
}

fn blurred(width: u32, height: u32, radius: u32, iterations: u32) -> Vec<u8> {
    let mut data = prepare_data(width, height);
    process_image(width, height, &mut data, Some(Params { radius, iterations }));
    data
}

#[test]
fn test_blur_empty_image() {
    assert_eq!(blurred(0, 0, 5, 1), Vec::<u8>::new());
}

#[test]
fn test_blur_single_pixel() {
    assert_eq!(blurred(1, 1, 5, 1), vec![0, 1, 2, 3]);
}

#[test]
fn test_blur_two_by_two() {
    assert_eq!(blurred(2, 2, 5, 1), vec![8, 9, 10, 11, 6, 7, 8, 9, 5, 6, 7, 8, 4, 5, 6, 7]);
}

#[test]
fn test_blur_three_by_two() {
    assert_eq!(
        blurred(3, 2, 5, 1),
        vec![
            12, 13, 14, 15, 11, 12, 13, 14, 9, 10, 11, 12, //
            10, 11, 12, 13, 8, 9, 10, 11, 7, 8, 9, 10,
        ]
    );
}

#[test]
fn test_blur_iterations() {
    assert_eq!(blurred(2, 2, 5, 2), vec![5, 6, 7, 8, 5, 6, 7, 8, 6, 7, 8, 9, 6, 7, 8, 9]);
}

#[test]
fn test_blur_small_radius() {
    assert_eq!(
        blurred(3, 3, 1, 1),
        vec![
            10, 11, 12, 13, 11, 12, 13, 14, 13, 14, 15, 16, //
            14, 15, 16, 17, 16, 17, 18, 19, 17, 18, 19, 20, //
            18, 19, 20, 21, 20, 21, 22, 23, 21, 22, 23, 24,
        ]
    );
}

#[test]
fn test_blur_second_pass_reads_first_pass() {
    let mut twice = prepare_data(2, 2);
    process_image(2, 2, &mut twice, Some(Params { radius: 5, iterations: 1 }));
    process_image(2, 2, &mut twice, Some(Params { radius: 5, iterations: 1 }));
    assert_eq!(twice, blurred(2, 2, 5, 2));
}

#[test]
fn test_blur_without_parameters_changes_nothing() {
    for (width, height) in [(0, 0), (1, 1), (2, 2), (3, 2), (7, 5)] {
        let mut data = prepare_data(width, height);
        process_image(width, height, &mut data, None);
        assert_eq!(data, prepare_data(width, height));
    }
}

#[test]
fn test_blur_no_iterations_changes_nothing() {
    assert_eq!(blurred(3, 3, 2, 0), prepare_data(3, 3));
}

#[test]
fn test_blur_radius_zero_changes_nothing() {
    // Only the pixel itself is in reach, and it has no weight.
    assert_eq!(blurred(3, 3, 0, 4), prepare_data(3, 3));
}

#[test]
fn test_blur_single_pixel_any_parameters() {
    for (radius, iterations) in [(0, 1), (1, 1), (5, 2), (u32::MAX, 3), (7, 0)] {
        let mut data = vec![200, 100, 50, 25];
        process_image(1, 1, &mut data, Some(Params { radius, iterations }));
        assert_eq!(data, vec![200, 100, 50, 25]);
    }
}

#[test]
fn test_blur_keeps_length() {
    for (width, height) in [(0, 3), (3, 0), (1, 4), (4, 1), (5, 3)] {
        for iterations in 0..3 {
            let data = blurred(width, height, 2, iterations);
            assert_eq!(data.len(), (width * height * 4) as usize);
        }
    }
}

#[test]
fn test_blur_largest_radius() {
    // With every pixel in reach the result is that of any radius that
    // covers the image.
    assert_eq!(blurred(2, 2, u32::MAX, 1), blurred(2, 2, 5, 1));
    assert_eq!(blurred(3, 2, u32::MAX, 1), blurred(3, 2, 5, 1));
}

#[test]
fn test_blur_row_of_two() {
    // Each pixel has one neighbour, at distance 1: it takes its value.
    let mut data = vec![10, 20, 30, 40, 50, 60, 70, 80];
    process_image(2, 1, &mut data, Some(Params { radius: 1, iterations: 1 }));
    assert_eq!(data, vec![50, 60, 70, 80, 10, 20, 30, 40]);
}

#[test]
fn test_blur_weights_by_distance() {
    // Three pixels in a row, radius 2. For the first, the neighbours are at
    // distances 1 and 2: (1 * 30 + 2 * 90) / 3 = 70. For the middle one both
    // are at distance 1: (0 + 90) / 2 = 45. For the last: (2 * 0 + 1 * 30) / 3
    // = 10.
    let mut data = vec![0, 0, 0, 0, 30, 30, 30, 30, 90, 90, 90, 90];
    process_image(3, 1, &mut data, Some(Params { radius: 2, iterations: 1 }));
    assert_eq!(data, vec![70, 70, 70, 70, 45, 45, 45, 45, 10, 10, 10, 10]);
}

#[test]
fn test_blur_disk_leaves_out_corners() {
    // In a 3 x 3 image with radius 1 the diagonal neighbours of the centre
    // are at distance 1 (the square root of 2, rounded down), so all eight
    // neighbours count, each with weight 1.
    let mut data = vec![0u8; 36];
    for (pixel, value) in [8u8, 16, 24, 32, 0, 40, 48, 56, 64].iter().enumerate() {
        for c in 0..4 {
            data[pixel * 4 + c] = *value;
        }
    }
    process_image(3, 3, &mut data, Some(Params { radius: 1, iterations: 1 }));
    // (8 + 16 + 24 + 32 + 40 + 48 + 56 + 64) / 8 = 36
    assert_eq!(&data[16..20], &[36, 36, 36, 36]);
    // The corner at (0, 0) has three neighbours at distance 1: (16 + 32 + 0) / 3.
    assert_eq!(&data[0..4], &[16, 16, 16, 16]);
}

#[test]
fn test_blur_rounds_down() {
    let mut data = vec![0, 0, 0, 0, 1, 1, 1, 1, 0, 0, 0, 0];
    process_image(3, 1, &mut data, Some(Params { radius: 1, iterations: 1 }));
    // The middle pixel: (0 + 0) / 2; its neighbours: 1 / 1.
    assert_eq!(data, vec![1, 1, 1, 1, 0, 0, 0, 0, 1, 1, 1, 1]);
    let mut data = vec![0, 0, 0, 0, 9, 9, 9, 9, 1, 1, 1, 1];
    process_image(3, 1, &mut data, Some(Params { radius: 2, iterations: 1 }));
    // First pixel: (1 * 9 + 2 * 1) / 3 = 3 (from 11 / 3).
    assert_eq!(&data[0..4], &[3, 3, 3, 3]);
}

#[test]
fn test_isqrt_exact_values() {
    assert_eq!(isqrt(0), 0);
    assert_eq!(isqrt(1), 1);
    assert_eq!(isqrt(2), 1);
    assert_eq!(isqrt(3), 1);
    assert_eq!(isqrt(4), 2);
    assert_eq!(isqrt(8), 2);
    assert_eq!(isqrt(9), 3);
    assert_eq!(isqrt(50), 7);
    assert_eq!(isqrt(99), 9);
    assert_eq!(isqrt(100), 10);
    assert_eq!(isqrt(u64::MAX as u128), u32::MAX as u64);
    assert_eq!(isqrt(1u128 << 64), 1u64 << 32);
    assert_eq!(isqrt(u128::MAX), u64::MAX);
}

#[test]
fn test_isqrt_brackets_its_argument() {
    for n in 0u128..5000 {
        let r = isqrt(n) as u128;
        assert!(r * r <= n && n < (r + 1) * (r + 1));
    }
}
