//! End-to-end tests of the two-pass pixel-sorting transform.

use pixelsort::grid::{sort_image, process_row, process_column, Image};
use pixelsort::pixel::{Direction, Mode, Pixel};

fn px(r: u8, g: u8, b: u8, a: u8) -> Pixel {
    Pixel { r, g, b, a }
}

fn image(w: usize, h: usize, pixels: Vec<Pixel>) -> Image {
    Image::from_pixels(w, h, pixels).unwrap()
}

fn as_tuples(img: &Image) -> Vec<(u8, u8, u8, u8)> {
    img.pixels.iter().map(|p| (p.r, p.g, p.b, p.a)).collect()
}

#[test]
fn bright_mode_sorts_by_product_ascending() {
    // All five pixels satisfy the Bright predicate; their products are
    // 65025 * b, in the scrambled order 5, 1, 3, 2, 4. The sort key is the
    // product metric even under a brightness-classified mode.
    let pixels: Vec<Pixel> = [5u8, 1, 3, 2, 4]
        .iter()
        .map(|&b| px(255, 255, b, 100 + b))
        .collect();
    let mut img = image(5, 1, pixels);
    sort_image(&mut img, Mode::Bright, Direction::RowsFirst);
    let bs: Vec<u8> = img.pixels.iter().map(|p| p.b).collect();
    assert_eq!(bs, vec![1, 2, 3, 4, 5]);
}

#[test]
fn black_mode_sorts_by_product_descending() {
    // Products 65025 * b, all above the Black threshold, scrambled.
    let pixels: Vec<Pixel> = [105u8, 101, 109, 103]
        .iter()
        .map(|&b| px(255, 255, b, b))
        .collect();
    let mut img = image(4, 1, pixels);
    sort_image(&mut img, Mode::Black, Direction::RowsFirst);
    let bs: Vec<u8> = img.pixels.iter().map(|p| p.b).collect();
    assert_eq!(bs, vec![109, 105, 103, 101]);
}

#[test]
fn white_predicate_boundary() {
    // Closest attainable products on each side of the White threshold
    // 0x123456: below matches, above does not.
    assert!(pixelsort::pixel::should_sort(&px(118, 101, 100, 0), Mode::White));
    assert!(!pixelsort::pixel::should_sort(&px(118, 102, 100, 0), Mode::White));
    assert!(pixelsort::pixel::should_sort(&px(0, 0, 0, 255), Mode::White));
}

#[test]
fn black_predicate_boundary() {
    // Products on each side of the Black threshold 0x345678: above matches,
    // below does not.
    assert!(pixelsort::pixel::should_sort(&px(152, 151, 150, 0), Mode::Black));
    assert!(!pixelsort::pixel::should_sort(&px(150, 151, 150, 0), Mode::Black));
}

#[test]
fn bright_predicate_boundary() {
    // Brightness exactly 128 matches, exactly 127 does not.
    assert!(pixelsort::pixel::should_sort(&px(128, 128, 128, 0), Mode::Bright));
    assert!(!pixelsort::pixel::should_sort(&px(127, 127, 127, 0), Mode::Bright));
}

#[test]
fn dark_predicate_boundary() {
    // Brightness exactly 222 matches, exactly 223 does not.
    assert!(pixelsort::pixel::should_sort(&px(222, 222, 222, 0), Mode::Dark));
    assert!(!pixelsort::pixel::should_sort(&px(223, 223, 223, 0), Mode::Dark));
}

#[test]
fn non_matching_pixels_keep_place_and_value() {
    // White mode: the bright pixels do not match and must stay untouched;
    // the two matching pixels at the row's start swap into ascending order.
    let wall = px(255, 255, 255, 9);
    let pixels = vec![
        px(20, 10, 10, 1), // product 2000, matches
        px(10, 10, 10, 2), // product 1000, matches
        wall,
        px(0, 0, 5, 4), // product 0, matches, run of one
        wall,
    ];
    let mut img = image(5, 1, pixels);
    sort_image(&mut img, Mode::White, Direction::RowsFirst);
    let got = as_tuples(&img);
    assert_eq!(got[0], (10, 10, 10, 2));
    assert_eq!(got[1], (20, 10, 10, 1));
    assert_eq!(got[2], (255, 255, 255, 9));
    assert_eq!(got[3], (0, 0, 5, 4));
    assert_eq!(got[4], (255, 255, 255, 9));
}

#[test]
fn row_pass_sees_column_pass_output() {
    // ColumnsFirst on a 2x2 grid. The column pass moves the product-1 pixel
    // up into row 0; the row pass must then sort it against the product-0
    // pixel. Had the row pass read the original grid, row 0 would hold the
    // product-1000 pixel instead.
    let a = px(10, 10, 10, 1); // product 1000, matches White
    let b = px(0, 5, 5, 2); // product 0, matches White
    let c = px(1, 1, 1, 3); // product 1, matches White
    let d = px(255, 255, 255, 4); // does not match White
    let mut img = image(2, 2, vec![a, b, c, d]);
    sort_image(&mut img, Mode::White, Direction::ColumnsFirst);
    let got = as_tuples(&img);
    assert_eq!(got[0], (0, 5, 5, 2));
    assert_eq!(got[1], (1, 1, 1, 3));
    assert_eq!(got[2], (10, 10, 10, 1));
    assert_eq!(got[3], (255, 255, 255, 4));
}

#[test]
fn degenerate_images_come_back_unchanged() {
    let mut empty = image(0, 0, vec![]);
    sort_image(&mut empty, Mode::White, Direction::RowsFirst);
    assert_eq!(empty.width, 0);
    assert_eq!(empty.height, 0);
    assert!(empty.pixels.is_empty());

    let mut flat = image(3, 0, vec![]);
    sort_image(&mut flat, Mode::Black, Direction::ColumnsFirst);
    assert_eq!(flat.width, 3);
    assert_eq!(flat.height, 0);
    assert!(flat.pixels.is_empty());
}

#[test]
fn alpha_travels_with_its_pixel() {
    // Every pixel carries a distinct alpha tied to its blue channel; after
    // the permutation each moved pixel still carries its own alpha.
    let pixels: Vec<Pixel> = [9u8, 7, 8, 5, 6]
        .iter()
        .map(|&b| px(255, 255, b, 200 + b))
        .collect();
    let mut img = image(5, 1, pixels);
    sort_image(&mut img, Mode::Bright, Direction::RowsFirst);
    for p in img.pixels.iter() {
        assert_eq!(p.a, 200 + p.b);
    }
    let bs: Vec<u8> = img.pixels.iter().map(|p| p.b).collect();
    assert_eq!(bs, vec![5, 6, 7, 8, 9]);
}

#[test]
fn transform_conserves_dimensions_and_pixels() {
    let pixels = vec![
        px(0, 0, 0, 1),
        px(200, 200, 200, 2),
        px(10, 20, 30, 3),
        px(255, 255, 255, 4),
        px(1, 2, 3, 5),
        px(128, 128, 128, 6),
        px(9, 9, 9, 7),
        px(250, 10, 250, 8),
        px(33, 44, 55, 9),
    ];
    let mut before = as_tuples(&image(3, 3, pixels.clone()));
    let mut img = image(3, 3, pixels);
    sort_image(&mut img, Mode::Dark, Direction::ColumnsFirst);
    assert_eq!(img.width, 3);
    assert_eq!(img.height, 3);
    let mut after = as_tuples(&img);
    before.sort();
    after.sort();
    assert_eq!(before, after);
}

#[test]
fn column_pass_sorts_one_column() {
    // A single column under Black: descending by product, via the column
    // pass alone.
    let pixels: Vec<Pixel> = [101u8, 109, 103]
        .iter()
        .map(|&b| px(255, 255, b, b))
        .collect();
    let mut img = image(1, 3, pixels);
    process_column(&mut img, 0, Mode::Black);
    let bs: Vec<u8> = img.pixels.iter().map(|p| p.b).collect();
    assert_eq!(bs, vec![109, 103, 101]);
}

#[test]
fn row_operation_leaves_other_rows_alone() {
    let top: Vec<Pixel> = [3u8, 1, 2].iter().map(|&b| px(10, 10, b, b)).collect();
    let bottom: Vec<Pixel> = [6u8, 4, 5].iter().map(|&b| px(10, 10, b, b)).collect();
    let mut pixels = top.clone();
    pixels.extend(bottom.clone());
    let mut img = image(3, 2, pixels);
    process_row(&mut img, 0, Mode::White);
    let bs: Vec<u8> = img.pixels.iter().map(|p| p.b).collect();
    assert_eq!(bs, vec![1, 2, 3, 6, 4, 5]);
}

#[test]
fn from_pixels_checks_the_buffer_length() {
    assert!(Image::from_pixels(2, 2, vec![px(0, 0, 0, 0); 4]).is_some());
    assert!(Image::from_pixels(2, 2, vec![px(0, 0, 0, 0); 3]).is_none());
    assert!(Image::from_pixels(0, 5, vec![]).is_some());
}

#[test]
fn get_reads_row_major() {
    let pixels = vec![
        px(1, 0, 0, 0),
        px(2, 0, 0, 0),
        px(3, 0, 0, 0),
        px(4, 0, 0, 0),
        px(5, 0, 0, 0),
        px(6, 0, 0, 0),
    ];
    let img = image(3, 2, pixels);
    assert_eq!(img.get(0, 0).r, 1);
    assert_eq!(img.get(2, 0).r, 3);
    assert_eq!(img.get(0, 1).r, 4);
    assert_eq!(img.get(2, 1).r, 6);
}
