use margin_crop::contour::{region_from_points, ContourRegionDetector};
use margin_crop::raster::{Pixel, RasterImage};
use margin_crop::region::BoundingBox;

fn px(r: u8, g: u8, b: u8, a: u8) -> Pixel {
    Pixel { r, g, b, a }
}

fn uniform(width: u32, height: u32, p: Pixel) -> RasterImage {
    RasterImage::new(width, height, vec![p; (width * height) as usize]).unwrap()
}

fn fill_rect(img: &mut RasterImage, x0: u32, y0: u32, x1: u32, y1: u32, p: Pixel) {
    for y in y0..=y1 {
        for x in x0..=x1 {
            img.pixels[(y * img.width + x) as usize] = p;
        }
    }
}

#[test]
fn transparent_black_image_yields_no_region() {
    let img = uniform(6, 6, px(0, 0, 0, 0));
    assert_eq!(ContourRegionDetector::detect(&img, 20), None);
}

#[test]
fn uniform_dark_image_yields_no_region() {
    let img = uniform(8, 5, px(0, 0, 0, 255));
    assert_eq!(ContourRegionDetector::detect(&img, 0), None);
    assert_eq!(ContourRegionDetector::detect(&img, 100), None);
}

#[test]
fn bright_rectangle_on_dark_ground_is_found() {
    let mut img = uniform(12, 12, px(0, 0, 0, 255));
    fill_rect(&mut img, 3, 4, 8, 7, px(255, 255, 255, 255));
    let b = ContourRegionDetector::detect(&img, 0).unwrap();
    assert_eq!(b, BoundingBox { min_x: 3, min_y: 4, max_x: 8, max_y: 7 });
}

#[test]
fn margin_is_half_of_the_percentage_per_side() {
    let mut img = uniform(20, 20, px(0, 0, 0, 255));
    fill_rect(&mut img, 4, 4, 15, 15, px(255, 255, 255, 255));
    let b = ContourRegionDetector::detect(&img, 50).unwrap();
    // Content spans 11 of 20, so the whitespace budget is 9 per axis
    // and the per-side offset floor(9 * 50 / 200) = 2.
    assert_eq!(b, BoundingBox { min_x: 2, min_y: 2, max_x: 17, max_y: 17 });
}

#[test]
fn scaling_the_image_scales_the_region_within_rounding() {
    let mut img = uniform(12, 12, px(0, 0, 0, 255));
    fill_rect(&mut img, 3, 4, 8, 7, px(255, 255, 255, 255));
    let b = ContourRegionDetector::detect(&img, 0).unwrap();

    let factor: u32 = 2;
    let mut big = uniform(12 * factor, 12 * factor, px(0, 0, 0, 255));
    fill_rect(
        &mut big,
        3 * factor,
        4 * factor,
        8 * factor + (factor - 1),
        7 * factor + (factor - 1),
        px(255, 255, 255, 255),
    );
    let bb = ContourRegionDetector::detect(&big, 0).unwrap();

    let close = |scaled: u32, base: u32| {
        let want = base * factor;
        scaled.abs_diff(want) <= factor
    };
    assert!(close(bb.min_x, b.min_x));
    assert!(close(bb.min_y, b.min_y));
    assert!(close(bb.max_x, b.max_x));
    assert!(close(bb.max_y, b.max_y));
}

#[test]
fn weighted_luma_decides_the_foreground() {
    // Pure blue converts to gray 722*200/10000 = 14, pure green to
    // 7152*200/10000 = 143, so the threshold splits between them and
    // only the green patch counts as content. A grayscale conversion
    // that averaged the channels would see both patches alike and
    // return their union instead.
    let mut img = uniform(16, 16, px(0, 0, 0, 255));
    fill_rect(&mut img, 1, 1, 3, 3, px(0, 0, 200, 255));
    fill_rect(&mut img, 8, 9, 12, 13, px(0, 200, 0, 255));
    let b = ContourRegionDetector::detect(&img, 0).unwrap();
    assert_eq!(b, BoundingBox { min_x: 8, min_y: 9, max_x: 12, max_y: 13 });
}

#[test]
fn region_from_points_unions_all_contours() {
    let points = vec![
        vec![(4u32, 5u32), (6, 2)],
        vec![],
        vec![(9, 7)],
    ];
    let b = region_from_points(&points, 16, 10, 0).unwrap();
    assert_eq!(b, BoundingBox { min_x: 4, min_y: 2, max_x: 9, max_y: 7 });
}

#[test]
fn region_from_points_empty_means_none() {
    let no_points: Vec<Vec<(u32, u32)>> = vec![vec![], vec![]];
    assert_eq!(region_from_points(&no_points, 16, 10, 50), None);
}

#[test]
fn region_from_points_degenerate_single_column_is_dropped() {
    // A single point with no margin to add gives a zero-width region.
    let points = vec![vec![(5u32, 5u32)]];
    assert_eq!(region_from_points(&points, 10, 10, 0), None);
}
