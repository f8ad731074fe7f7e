use pixelsort::grid::ImageGrid;
use pixelsort::pixel::{comp_pixel, luma_from_pixel, pixel_is_above, Pixel};
use pixelsort::row::sort_row;
use pixelsort::sort::sort_by_luma;
use std::cmp::Ordering;

fn gray(v: u8) -> Pixel {
    Pixel::new(v, v, v)
}

fn lumas(pixels: &[Pixel]) -> Vec<u16> {
    pixels.iter().map(|p| luma_from_pixel(*p)).collect()
}

fn is_sorted(pixels: &[Pixel]) -> bool {
    pixels.windows(2).all(|w| luma_from_pixel(w[0]) <= luma_from_pixel(w[1]))
}

fn sorted_copy(pixels: &[Pixel]) -> Vec<(u8, u8, u8)> {
    let mut v: Vec<(u8, u8, u8)> = pixels.iter().map(|p| (p.r, p.g, p.b)).collect();
    v.sort();
    v
}

#[test]
fn luma_is_channel_sum() {
    assert_eq!(luma_from_pixel(Pixel::new(10, 20, 30)), 60);
    assert_eq!(luma_from_pixel(Pixel::new(255, 255, 255)), 765);
    assert_eq!(luma_from_pixel(Pixel::new(0, 0, 0)), 0);
}

#[test]
fn comparator_orders_by_brightness() {
    assert_eq!(comp_pixel(gray(10), gray(20)), Ordering::Less);
    assert_eq!(comp_pixel(gray(20), gray(10)), Ordering::Greater);
    assert_eq!(comp_pixel(Pixel::new(30, 0, 0), Pixel::new(0, 0, 30)), Ordering::Equal);
}

#[test]
fn threshold_is_strict() {
    // Brightness 20 against a threshold of 20: a boundary, not part of a run.
    assert!(!pixel_is_above(gray(20), 60));
    assert!(pixel_is_above(gray(20), 59));
    assert!(pixel_is_above(gray(0), -1));
}

#[test]
fn sort_by_luma_sorts_and_keeps_pixels() {
    let input = vec![gray(9), Pixel::new(1, 2, 3), gray(0), Pixel::new(200, 0, 0), gray(9)];
    let out = sort_by_luma(&input);
    assert!(is_sorted(&out));
    assert_eq!(sorted_copy(&out), sorted_copy(&input));
    assert_eq!(lumas(&out), vec![0, 6, 27, 27, 200]);
}

#[test]
fn concrete_row_scenario() {
    let row = vec![gray(10), gray(50), gray(5), gray(80), gray(60)];
    let grid = ImageGrid::new(5, 1, row).unwrap();
    let out = grid.pixel_sort(20 * 3);
    assert_eq!(out.pixels, vec![gray(10), gray(50), gray(5), gray(60), gray(80)]);
}

#[test]
fn empty_image() {
    let grid = ImageGrid::new(0, 0, vec![]).unwrap();
    let out = grid.pixel_sort(60);
    assert_eq!(out.width, 0);
    assert_eq!(out.height, 0);
    assert!(out.pixels.is_empty());
}

#[test]
fn zero_width_image() {
    let grid = ImageGrid::new(0, 4, vec![]).unwrap();
    let out = grid.pixel_sort(60);
    assert_eq!(out.height, 4);
    assert!(out.pixels.is_empty());
}

#[test]
fn mismatched_pixel_count_is_refused() {
    assert!(ImageGrid::new(2, 2, vec![gray(1); 3]).is_none());
    assert!(ImageGrid::new(usize::MAX, 2, vec![gray(1); 2]).is_none());
}

#[test]
fn size_is_preserved() {
    let pixels: Vec<Pixel> = (0..12u8).map(|i| gray(i.wrapping_mul(37))).collect();
    let grid = ImageGrid::new(4, 3, pixels).unwrap();
    let out = grid.pixel_sort(30);
    assert_eq!(out.width, 4);
    assert_eq!(out.height, 3);
    assert_eq!(out.pixels.len(), 12);
}

#[test]
fn boundaries_stay_in_place() {
    let pixels = vec![
        gray(90), gray(3), gray(70), gray(40), gray(2), gray(100),
        gray(1), gray(250), gray(20), gray(10), gray(30), gray(0),
    ];
    let grid = ImageGrid::new(6, 2, pixels.clone()).unwrap();
    let out = grid.pixel_sort(20 * 3);
    for (i, p) in pixels.iter().enumerate() {
        if luma_from_pixel(*p) <= 60 {
            assert_eq!(out.pixels[i], *p);
        }
    }
}

#[test]
fn runs_are_sorted_and_keep_their_pixels() {
    let row = vec![
        gray(90), gray(70), gray(80), gray(3), gray(100), Pixel::new(255, 0, 0), gray(50), gray(1),
    ];
    let out = sort_row(&row, 30);
    assert_eq!(out.len(), row.len());
    assert!(is_sorted(&out[0..3]));
    assert_eq!(sorted_copy(&out[0..3]), sorted_copy(&row[0..3]));
    assert_eq!(out[3], row[3]);
    assert!(is_sorted(&out[4..7]));
    assert_eq!(sorted_copy(&out[4..7]), sorted_copy(&row[4..7]));
    assert_eq!(out[7], row[7]);
    assert_eq!(lumas(&out), vec![210, 240, 270, 9, 150, 255, 300, 3]);
}

#[test]
fn pixel_equal_to_threshold_splits_runs() {
    let row = vec![gray(90), gray(30), gray(20), gray(60), gray(40)];
    let out = sort_row(&row, 20 * 3);
    assert_eq!(out, vec![gray(30), gray(90), gray(20), gray(40), gray(60)]);
}

#[test]
fn rows_do_not_mix() {
    let pixels = vec![gray(90), gray(80), gray(70), gray(60), gray(50), gray(40)];
    let grid = ImageGrid::new(3, 2, pixels).unwrap();
    let out = grid.pixel_sort(0);
    assert_eq!(out.pixels, vec![gray(70), gray(80), gray(90), gray(40), gray(50), gray(60)]);
}

#[test]
fn high_threshold_keeps_image() {
    let pixels = vec![gray(90), gray(10), gray(255), gray(0), gray(128), gray(7)];
    let grid = ImageGrid::new(3, 2, pixels.clone()).unwrap();
    let out = grid.pixel_sort(765);
    assert_eq!(out.pixels, pixels);
}

#[test]
fn low_threshold_sorts_each_row_in_full() {
    let pixels = vec![
        gray(90), gray(10), gray(255), gray(4),
        gray(128), gray(7), gray(200), gray(3),
    ];
    let grid = ImageGrid::new(4, 2, pixels.clone()).unwrap();
    let out = grid.pixel_sort(-1);
    assert_eq!(out.pixels[0..4], [gray(4), gray(10), gray(90), gray(255)]);
    assert_eq!(out.pixels[4..8], [gray(3), gray(7), gray(128), gray(200)]);
}

#[test]
fn negative_threshold_with_black_pixels() {
    let row = vec![gray(0), gray(5), gray(0)];
    assert_eq!(sort_row(&row, -3), vec![gray(0), gray(0), gray(5)]);
    assert_eq!(sort_row(&row, 0), row);
}
