use blurslice::{
    box_blur, box_blur_horz, box_blur_vert, box_diameters, gaussian_blur_boxes,
    gaussian_blur_bytes_boxes, lower_box_width, SliceSizeError,
};

#[test]
fn lower_box_width_is_odd_and_at_least_one() {
    assert_eq!(lower_box_width(0), 1);
    assert_eq!(lower_box_width(1), 1);
    assert_eq!(lower_box_width(2), 1);
    assert_eq!(lower_box_width(4), 3);
    assert_eq!(lower_box_width(5), 5);
}

#[test]
fn box_diameters_split_at_m() {
    assert_eq!(box_diameters::<4>(3, 1), [3, 5, 5, 5]);
    assert_eq!(box_diameters::<3>(5, 4), [5, 5, 5]);
    assert_eq!(box_diameters::<3>(1, 0), [3, 3, 3]);
    assert_eq!(box_diameters::<3>(1, 3), [1, 1, 1]);
}

#[test]
fn two_pixel_row_is_blurred() {
    // sigma 2.0 with three channels plans three boxes of diameter 5
    let mut pixels = vec![[0xff, 0x00, 0xff], [0x00, 0xff, 0x00]];
    let boxes = box_diameters::<3>(lower_box_width(5), 4);
    assert_eq!(boxes, [5, 5, 5]);
    gaussian_blur_boxes(&mut pixels, 2, 1, boxes);
    assert!(pixels[0] != [0xff, 0x00, 0xff]);
    assert_eq!(pixels, vec![[129, 126, 129], [126, 129, 126]]);
}

#[test]
fn unit_boxes_leave_image_unchanged() {
    let before: Vec<[u8; 3]> = (0..12u8).map(|i| [i * 20, 255 - i, i]).collect();
    let mut pixels = before.clone();
    gaussian_blur_boxes(&mut pixels, 4, 3, [1, 1, 1]);
    assert_eq!(pixels, before);
}

#[test]
fn uniform_image_is_fixed_point() {
    let mut pixels = vec![[17u8, 200, 99, 3]; 30];
    gaussian_blur_boxes(&mut pixels, 6, 5, [7, 9, 3, 11]);
    assert_eq!(pixels, vec![[17u8, 200, 99, 3]; 30]);
}

#[test]
fn single_column_blurs_vertically_only() {
    let mut col = vec![[0u8], [0], [90], [0], [0]];
    gaussian_blur_boxes(&mut col, 1, 5, [3]);
    assert_eq!(col, vec![[0u8], [30], [30], [30], [0]]);
    let mut row = vec![[0u8], [0], [90], [0], [0]];
    gaussian_blur_boxes(&mut row, 5, 1, [3]);
    assert_eq!(row, vec![[0u8], [30], [30], [30], [0]]);
}

#[test]
fn single_pixel_image_survives_large_radius() {
    let mut one = vec![[42u8, 7]];
    gaussian_blur_boxes(&mut one, 1, 1, [101, 3]);
    assert_eq!(one, vec![[42u8, 7]]);
}

#[test]
fn edge_clamping_with_radius_beyond_line() {
    // radius 3 over a row of two: window -3..=3 around x=0 holds four copies
    // of the left pixel and three of the right one
    let src = vec![[70u8], [0]];
    let mut dst = vec![[0u8], [0]];
    box_blur_horz(&src, &mut dst, 2, 1, 3, 2);
    assert_eq!(dst, vec![[40u8], [30]]);
}

#[test]
fn bright_pixel_spreads_and_decays() {
    let w = 9usize;
    let mut pixels = vec![[0u8]; w * w];
    pixels[4 * w + 4] = [255];
    gaussian_blur_boxes(&mut pixels, w, w, [5]);
    let row: Vec<u8> = (0..w).map(|x| pixels[4 * w + x][0]).collect();
    assert!(row[4] < 255);
    assert!(row[3] > 0);
    for x in 4..w - 1 {
        assert!(row[x] >= row[x + 1]);
        assert!(row[w - 1 - x] >= row[w - 2 - x]);
    }
    let mut wide = vec![[0u8; 3]; w * w];
    wide[4 * w + 4] = [255, 255, 255];
    gaussian_blur_boxes(&mut wide, w, w, [3, 3, 3]);
    for x in 4..w - 1 {
        assert!(wide[4 * w + x][0] >= wide[4 * w + x + 1][0]);
    }
}

#[test]
fn strided_passes_leave_gaps_alone() {
    // a 2x2 image in rows of stride 3; index 2 and 5 are outside it
    let src: Vec<[u8; 1]> = vec![[10], [40], [99], [70], [100], [99]];
    let mut dst: Vec<[u8; 1]> = vec![[1]; 6];
    box_blur_horz(&src, &mut dst, 2, 2, 1, 3);
    assert_eq!(dst, vec![[20], [30], [1], [80], [90], [1]]);
    let mut down: Vec<[u8; 1]> = vec![[5]; 6];
    box_blur_vert(&src, &mut down, 2, 2, 1, 3);
    assert_eq!(down, vec![[30], [60], [5], [50], [80], [5]]);
    let mut copy: Vec<[u8; 1]> = vec![[5]; 6];
    box_blur_vert(&src, &mut copy, 2, 2, 0, 3);
    assert_eq!(copy, src);
}

#[test]
fn box_blur_leaves_result_in_back_buffer() {
    let mut back: Vec<[u8; 1]> = vec![[0], [90], [0], [0]];
    let mut front: Vec<[u8; 1]> = vec![[0]; 4];
    box_blur(&mut back, &mut front, 2, 2, 1, 1, 2);
    assert_eq!(front, vec![[30], [60], [0], [0]]);
    assert_eq!(back, vec![[20], [40], [10], [20]]);
}

#[test]
fn byte_buffer_blur_matches_pixel_blur() {
    let mut bytes = vec![0xff, 0x00, 0xff, 0x00, 0xff, 0x00];
    assert_eq!(gaussian_blur_bytes_boxes::<3>(&mut bytes, 2, 1, [5, 5, 5]), Ok(()));
    assert_eq!(bytes, vec![129, 126, 129, 126, 129, 126]);
}

#[test]
fn byte_buffer_of_wrong_length_is_untouched() {
    let mut bytes = vec![1u8, 2, 3, 4, 5];
    assert_eq!(
        gaussian_blur_bytes_boxes::<4>(&mut bytes, 1, 1, [3, 3, 3, 3]),
        Err(SliceSizeError { expected: 4, actual: 5, channels: 4 })
    );
    assert_eq!(bytes, vec![1u8, 2, 3, 4, 5]);
}

#[test]
fn uniform_image_with_different_tail_is_fixed_point() {
    let mut data = vec![[50u8, 60]; 6];
    data.push([200, 1]);
    let before = data.clone();
    gaussian_blur_boxes(&mut data, 3, 2, [5, 7]);
    assert_eq!(data, before);
}

#[test]
fn blurred_channels_stay_within_input_range() {
    let data: Vec<[u8; 2]> = (0..20u8).map(|i| [40 + (i * 7) % 51, 200 - (i * 13) % 31]).collect();
    let mut blurred = data.clone();
    gaussian_blur_boxes(&mut blurred, 5, 4, [3, 5]);
    for c in 0..2 {
        let lo = data.iter().map(|p| p[c]).min().unwrap();
        let hi = data.iter().map(|p| p[c]).max().unwrap();
        for p in &blurred {
            assert!(lo <= p[c] && p[c] <= hi);
        }
    }
    assert_ne!(blurred, data);
}
