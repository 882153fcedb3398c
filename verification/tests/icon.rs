use breadify::icon::{bmp, downsample, ico, ICO_SIZES, SIZE, SUPERSAMPLE};

#[test]
fn a_one_pixel_bitmap_is_header_pixel_and_mask() {
    let out = bmp(1, &vec![10, 20, 30, 40]);
    let mut expected: Vec<u8> = vec![40, 0, 0, 0, 1, 0, 0, 0, 2, 0, 0, 0, 1, 0, 32, 0];
    expected.extend(std::iter::repeat(0u8).take(24));
    expected.extend([30, 20, 10, 40]);
    expected.extend([0, 0, 0, 0]);
    assert_eq!(out, expected);
}

#[test]
fn bitmap_rows_run_bottom_up_in_bgra() {
    // Top row: pixels a, b; bottom row: c, d.
    let pixels: Vec<u8> = vec![
        1, 2, 3, 4, 5, 6, 7, 8, //
        9, 10, 11, 12, 13, 14, 15, 16,
    ];
    let out = bmp(2, &pixels);
    assert_eq!(out.len(), 40 + 16 + 8);
    assert_eq!(&out[4..8], &[2, 0, 0, 0]);
    assert_eq!(&out[8..12], &[4, 0, 0, 0]);
    assert_eq!(&out[40..56], &[11, 10, 9, 12, 15, 14, 13, 16, 3, 2, 1, 4, 7, 6, 5, 8]);
    assert!(out[56..].iter().all(|b| *b == 0));
}

#[test]
fn a_wide_bitmap_has_a_mask_row_of_whole_words() {
    let edge: u32 = 33;
    let out = bmp(edge, &vec![0u8; (edge * edge * 4) as usize]);
    // 33 bits round up to two 32-bit words: eight bytes a row.
    assert_eq!(out.len(), 40 + (33 * 33 * 4) + 8 * 33);
}

#[test]
fn the_icon_directory_points_at_each_image_in_turn() {
    let images: Vec<(u32, Vec<u8>)> = vec![(16, vec![1, 2, 3]), (256, vec![9])];
    let file = ico(&images);
    let expected: Vec<u8> = vec![
        0, 0, 1, 0, 2, 0, //
        16, 16, 0, 0, 1, 0, 32, 0, 3, 0, 0, 0, 38, 0, 0, 0, //
        0, 0, 0, 0, 1, 0, 32, 0, 1, 0, 0, 0, 41, 0, 0, 0, //
        1, 2, 3, 9,
    ];
    assert_eq!(file, expected);
}

#[test]
fn an_icon_with_no_images_is_only_its_header() {
    assert_eq!(ico(&Vec::new()), vec![0, 0, 1, 0, 0, 0]);
}

#[test]
fn an_icon_of_real_bitmaps_lists_every_size() {
    let images: Vec<(u32, Vec<u8>)> = ICO_SIZES
        .iter()
        .map(|edge| (*edge, bmp(*edge, &vec![0u8; (edge * edge * 4) as usize])))
        .collect();
    let file = ico(&images);
    assert_eq!(&file[4..6], &[6, 0]);
    // The largest size is written as zero: the field is one byte wide.
    let last = 6 + 16 * 5;
    assert_eq!(file[last], 0);
    assert_eq!(file[6], 16);
    let total: usize = images.iter().map(|(_, image)| image.len()).sum();
    assert_eq!(file.len(), 6 + 16 * 6 + total);
}

#[test]
fn the_filter_averages_only_covered_samples() {
    // A two-by-two canvas for a one-pixel icon: two samples covered.
    let canvas: Vec<u8> = vec![
        10, 20, 30, 255, 0, 0, 0, 0, //
        30, 40, 50, 255, 99, 99, 99, 0,
    ];
    let icon = downsample(&canvas, 1, 2);
    assert_eq!(icon, vec![20, 30, 40, 127]);
}

#[test]
fn an_empty_block_is_transparent_black() {
    let canvas: Vec<u8> = vec![7u8, 7, 7, 0].repeat(16);
    let icon = downsample(&canvas, 2, 4);
    assert_eq!(icon, vec![0u8; 16]);
}

#[test]
fn each_icon_pixel_reads_its_own_block() {
    // Four by four samples, two pixels across: the top-left block is red and
    // fully covered, the top-right one has a single green sample, the bottom
    // row is empty.
    let mut canvas = vec![0u8; 4 * 4 * 4];
    for (y, x) in [(0, 0), (0, 1), (1, 0), (1, 1)] {
        let at = (y * 4 + x) * 4;
        canvas[at..at + 4].copy_from_slice(&[200, 0, 0, 255]);
    }
    let at = (1 * 4 + 3) * 4;
    canvas[at..at + 4].copy_from_slice(&[0, 100, 0, 9]);
    let icon = downsample(&canvas, 2, 4);
    assert_eq!(&icon[0..4], &[200, 0, 0, 255]);
    assert_eq!(&icon[4..8], &[0, 100, 0, 63]);
    assert_eq!(&icon[8..16], &[0u8; 8]);
}

#[test]
fn the_window_icon_is_drawn_four_samples_a_pixel() {
    assert_eq!(SIZE, 256);
    assert_eq!(SUPERSAMPLE, 4);
    assert_eq!(ICO_SIZES, [16, 32, 48, 64, 128, 256]);
}
