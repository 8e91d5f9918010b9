use image_processor::mirror_plugin::{process_image, Params};

fn prepare_data(width: u32, height: u32) -> Vec<u8> {
    (0..width * height * 4).map(|val| val as u8).collect::<Vec<_>>()
}

fn mirrored(width: u32, height: u32, horizontal: bool, vertical: bool) -> Vec<u8> {
    let mut data = prepare_data(width, height);
    process_image(width, height, &mut data, Some(Params { horizontal, vertical }));
    data
}

#[test]
fn test_stable_empty_image() {
    assert_eq!(mirrored(0, 0, false, false), Vec::<u8>::new());
}

#[test]
fn test_stable_two_by_two() {
    assert_eq!(
        mirrored(2, 2, false, false),
        vec![0, 1, 2, 3, 4, 5, 6, 7, 8, 9, 10, 11, 12, 13, 14, 15]
    );
}

#[test]
fn test_horizontal_two_by_two() {
    assert_eq!(
        mirrored(2, 2, true, false),
        vec![4, 5, 6, 7, 0, 1, 2, 3, 12, 13, 14, 15, 8, 9, 10, 11]
    );
}

#[test]
fn test_horizontal_three_by_two() {
    assert_eq!(
        mirrored(3, 2, true, false),
        vec![
            8, 9, 10, 11, 4, 5, 6, 7, 0, 1, 2, 3, 20, 21, 22, 23, 16, 17, 18, 19, 12, 13, 14, 15,
        ]
    );
}

#[test]
fn test_vertical_two_by_two() {
    assert_eq!(
        mirrored(2, 2, false, true),
        vec![8, 9, 10, 11, 12, 13, 14, 15, 0, 1, 2, 3, 4, 5, 6, 7]
    );
}

#[test]
fn test_vertical_two_by_three() {
    assert_eq!(
        mirrored(2, 3, false, true),
        vec![
            16, 17, 18, 19, 20, 21, 22, 23, 8, 9, 10, 11, 12, 13, 14, 15, 0, 1, 2, 3, 4, 5, 6, 7,
        ]
    );
}

#[test]
fn test_both_two_by_two() {
    assert_eq!(
        mirrored(2, 2, true, true),
        vec![12, 13, 14, 15, 8, 9, 10, 11, 4, 5, 6, 7, 0, 1, 2, 3]
    );
}

#[test]
fn test_both_two_by_three() {
    assert_eq!(
        mirrored(2, 3, true, true),
        vec![
            20, 21, 22, 23, 16, 17, 18, 19, //
            12, 13, 14, 15, 8, 9, 10, 11, //
            4, 5, 6, 7, 0, 1, 2, 3,
        ]
    );
}

#[test]
fn test_both_three_by_two() {
    assert_eq!(
        mirrored(3, 2, true, true),
        vec![
            20, 21, 22, 23, 16, 17, 18, 19, 12, 13, 14, 15, //
            8, 9, 10, 11, 4, 5, 6, 7, 0, 1, 2, 3,
        ]
    );
}

#[test]
fn test_mirror_without_parameters_changes_nothing() {
    for (width, height) in [(0, 0), (1, 1), (2, 2), (3, 2), (5, 4)] {
        let mut data = prepare_data(width, height);
        process_image(width, height, &mut data, None);
        assert_eq!(data, prepare_data(width, height));
    }
}

#[test]
fn test_mirror_neither_flag_changes_nothing() {
    for (width, height) in [(1, 1), (3, 2), (2, 3), (5, 4), (0, 7), (7, 0)] {
        assert_eq!(mirrored(width, height, false, false), prepare_data(width, height));
    }
}

#[test]
fn test_mirror_twice_restores() {
    for (width, height) in [(0, 0), (1, 1), (2, 2), (3, 2), (2, 3), (5, 4), (4, 5), (7, 7)] {
        for (horizontal, vertical) in [(true, false), (false, true), (true, true)] {
            let mut data = prepare_data(width, height);
            let params = || Some(Params { horizontal, vertical });
            process_image(width, height, &mut data, params());
            if width > 1 && horizontal || height > 1 && vertical {
                assert_ne!(data, prepare_data(width, height));
            }
            process_image(width, height, &mut data, params());
            assert_eq!(data, prepare_data(width, height));
        }
    }
}

#[test]
fn test_mirror_middle_column_stays() {
    // Three columns: the outer ones change places, the middle one stays.
    let data = mirrored(3, 1, true, false);
    assert_eq!(&data[4..8], &[4, 5, 6, 7]);
    assert_eq!(&data[0..4], &[8, 9, 10, 11]);
    assert_eq!(&data[8..12], &[0, 1, 2, 3]);
}

#[test]
fn test_mirror_middle_row_stays() {
    let data = mirrored(1, 3, false, true);
    assert_eq!(data, vec![8, 9, 10, 11, 4, 5, 6, 7, 0, 1, 2, 3]);
}

#[test]
fn test_mirror_single_row_and_column() {
    // A single row has nothing to reverse vertically, a single column
    // nothing horizontally.
    assert_eq!(mirrored(4, 1, false, true), prepare_data(4, 1));
    assert_eq!(mirrored(1, 4, true, false), prepare_data(1, 4));
}

#[test]
fn test_mirror_order_of_flips() {
    // Columns first, then rows, is the same as both flags at once.
    let mut data = prepare_data(3, 4);
    process_image(3, 4, &mut data, Some(Params { horizontal: true, vertical: false }));
    process_image(3, 4, &mut data, Some(Params { horizontal: false, vertical: true }));
    assert_eq!(data, mirrored(3, 4, true, true));
}

#[test]
fn test_mirror_keeps_channels_together() {
    let mut data = vec![1, 2, 3, 4, 5, 6, 7, 8];
    process_image(2, 1, &mut data, Some(Params { horizontal: true, vertical: false }));
    assert_eq!(data, vec![5, 6, 7, 8, 1, 2, 3, 4]);
}
