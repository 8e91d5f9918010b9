use image_processor::layout::pixel_offset;
use image_processor::{plugin_name_to_filename, Image, Platform};

#[test]
fn test_plugin_filename_linux() {
    assert_eq!(plugin_name_to_filename("blur_plugin", Platform::Linux), "libblur_plugin.so");
}

#[test]
fn test_plugin_filename_macos() {
    assert_eq!(plugin_name_to_filename("blur_plugin", Platform::MacOs), "libblur_plugin.dylib");
}

#[test]
fn test_plugin_filename_windows() {
    assert_eq!(plugin_name_to_filename("mirror_plugin", Platform::Windows), "mirror_plugin.dll");
}

#[test]
fn test_plugin_filename_empty_name() {
    assert_eq!(plugin_name_to_filename("", Platform::Linux), "lib.so");
    assert_eq!(plugin_name_to_filename("", Platform::MacOs), "lib.dylib");
    assert_eq!(plugin_name_to_filename("", Platform::Windows), ".dll");
}

#[test]
fn test_plugin_filename_keeps_name_as_given() {
    assert_eq!(plugin_name_to_filename("размытие", Platform::Linux), "libразмытие.so");
    assert_eq!(plugin_name_to_filename("lib.so", Platform::Linux), "liblib.so.so");
}

#[test]
fn test_image_well_formed() {
    let image = Image { width: 3, height: 2, pixels: vec![0; 24] };
    assert!(image.is_well_formed());
    let image = Image { width: 0, height: 0, pixels: Vec::new() };
    assert!(image.is_well_formed());
    let image = Image { width: 0, height: 9, pixels: Vec::new() };
    assert!(image.is_well_formed());
}

#[test]
fn test_image_not_well_formed() {
    let image = Image { width: 3, height: 2, pixels: vec![0; 23] };
    assert!(!image.is_well_formed());
    let image = Image { width: 3, height: 2, pixels: vec![0; 25] };
    assert!(!image.is_well_formed());
    let image = Image { width: 3, height: 2, pixels: vec![0; 6] };
    assert!(!image.is_well_formed());
    let image = Image { width: 0, height: 2, pixels: vec![0; 4] };
    assert!(!image.is_well_formed());
}

#[test]
fn test_image_too_large_for_any_buffer() {
    // 2^32 - 1 pixels each way cannot be held; the product must not wrap
    // round to a small number.
    let image = Image { width: u32::MAX, height: u32::MAX, pixels: vec![0; 4] };
    assert!(!image.is_well_formed());
    let image = Image { width: 1 << 31, height: 1 << 31, pixels: Vec::new() };
    assert!(!image.is_well_formed());
}

#[test]
fn test_pixel_offset() {
    assert_eq!(pixel_offset(3, 2, 0, 0), 0);
    assert_eq!(pixel_offset(3, 2, 1, 0), 4);
    assert_eq!(pixel_offset(3, 2, 2, 0), 8);
    assert_eq!(pixel_offset(3, 2, 0, 1), 12);
    assert_eq!(pixel_offset(3, 2, 2, 1), 20);
}
