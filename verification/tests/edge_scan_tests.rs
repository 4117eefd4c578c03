use margin_crop::edge_scan::EdgeScanDetector;
use margin_crop::raster::{Pixel, RasterImage};
use margin_crop::region::{BoundingBox, MarginExpander};

fn px(r: u8, g: u8, b: u8, a: u8) -> Pixel {
    Pixel { r, g, b, a }
}

fn uniform(width: u32, height: u32, p: Pixel) -> RasterImage {
    RasterImage::new(width, height, vec![p; (width * height) as usize]).unwrap()
}

fn fill_rect(img: &mut RasterImage, x0: u32, y0: u32, x1: u32, y1: u32, p: Pixel) {
    for y in y0..=y1 {
        for x in x0..=x1 {
            img.pixels[(y * img.width + x) as usize] = p;
        }
    }
}

#[test]
fn transparent_image_yields_full_box() {
    let img = uniform(5, 4, px(255, 255, 255, 0));
    let b = EdgeScanDetector::detect(&img, 150);
    assert_eq!(b, BoundingBox { min_x: 0, min_y: 0, max_x: 5, max_y: 4 });
}

#[test]
fn all_light_image_yields_full_box() {
    let img = uniform(5, 4, px(255, 255, 255, 255));
    let b = EdgeScanDetector::detect(&img, 150);
    assert_eq!(b, BoundingBox { min_x: 0, min_y: 0, max_x: 5, max_y: 4 });
}

#[test]
fn black_rectangle_yields_its_exact_coordinates() {
    let mut img = uniform(10, 8, px(255, 255, 255, 255));
    fill_rect(&mut img, 2, 1, 5, 3, px(0, 0, 0, 255));
    let b = EdgeScanDetector::detect(&img, 150);
    assert_eq!(b, BoundingBox { min_x: 2, min_y: 1, max_x: 5, max_y: 3 });
}

#[test]
fn gray_value_uses_integer_truncation() {
    // Mean 2/3 truncates to 0, which is below a threshold of 1 ...
    let mut img = uniform(3, 1, px(255, 255, 255, 255));
    img.pixels[1] = px(2, 0, 0, 255);
    let b = EdgeScanDetector::detect(&img, 1);
    assert_eq!(b, BoundingBox { min_x: 1, min_y: 0, max_x: 1, max_y: 0 });
    // ... while mean 3/3 = 1 is not strictly below it.
    let mut img2 = uniform(3, 1, px(255, 255, 255, 255));
    img2.pixels[1] = px(3, 0, 0, 255);
    let b2 = EdgeScanDetector::detect(&img2, 1);
    assert_eq!(b2, BoundingBox { min_x: 0, min_y: 0, max_x: 3, max_y: 1 });
}

#[test]
fn pixel_at_threshold_is_background() {
    let mut img = uniform(4, 4, px(255, 255, 255, 255));
    img.pixels[5] = px(150, 150, 150, 255);
    let b = EdgeScanDetector::detect(&img, 150);
    assert_eq!(b, BoundingBox { min_x: 0, min_y: 0, max_x: 4, max_y: 4 });
    let b2 = EdgeScanDetector::detect(&img, 151);
    assert_eq!(b2, BoundingBox { min_x: 1, min_y: 1, max_x: 1, max_y: 1 });
}

#[test]
fn transparent_dark_pixels_are_not_content() {
    let mut img = uniform(4, 4, px(255, 255, 255, 255));
    img.pixels[5] = px(0, 0, 0, 0);
    img.pixels[10] = px(0, 0, 0, 1);
    let b = EdgeScanDetector::detect(&img, 150);
    assert_eq!(b, BoundingBox { min_x: 2, min_y: 2, max_x: 2, max_y: 2 });
}

#[test]
fn single_pixel_literal_box_and_expansion() {
    let mut img = uniform(10, 10, px(255, 255, 255, 255));
    img.pixels[(3 * 10 + 3) as usize] = px(0, 0, 0, 255);
    let b = EdgeScanDetector::detect(&img, 150);
    assert_eq!(b, BoundingBox { min_x: 3, min_y: 3, max_x: 3, max_y: 3 });
    let e = MarginExpander::expand(b, 100);
    assert_eq!(e, BoundingBox { min_x: 0, min_y: 0, max_x: 6, max_y: 6 });
}

#[test]
fn remeasuring_the_content_extent_touches_all_edges() {
    let mut img = uniform(12, 9, px(255, 255, 255, 255));
    fill_rect(&mut img, 4, 2, 7, 6, px(10, 10, 10, 255));
    // Thin out the rectangle so content is not a solid block.
    fill_rect(&mut img, 5, 3, 6, 5, px(255, 255, 255, 255));
    let b = EdgeScanDetector::detect(&img, 150);
    assert_eq!(b, BoundingBox { min_x: 4, min_y: 2, max_x: 7, max_y: 6 });
    let cropped = margin_crop::raster::crop(
        &img,
        b.min_x,
        b.min_y,
        b.max_x - b.min_x + 1,
        b.max_y - b.min_y + 1,
    );
    let b2 = EdgeScanDetector::detect(&cropped, 150);
    assert_eq!(b2, BoundingBox {
        min_x: 0,
        min_y: 0,
        max_x: cropped.width - 1,
        max_y: cropped.height - 1,
    });
}
