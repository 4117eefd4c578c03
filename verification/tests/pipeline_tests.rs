use margin_crop::pipeline::{CropConfig, DetectorKind, PageCropPipeline, PageResult};
use margin_crop::raster::{Pixel, RasterImage};
use margin_crop::region::BoundingBox;

fn px(r: u8, g: u8, b: u8, a: u8) -> Pixel {
    Pixel { r, g, b, a }
}

fn uniform(width: u32, height: u32, p: Pixel) -> RasterImage {
    RasterImage::new(width, height, vec![p; (width * height) as usize]).unwrap()
}

fn fill_rect(img: &mut RasterImage, x0: u32, y0: u32, x1: u32, y1: u32, p: Pixel) {
    for y in y0..=y1 {
        for x in x0..=x1 {
            img.pixels[(y * img.width + x) as usize] = p;
        }
    }
}

fn bright_page(width: u32, height: u32, x0: u32, y0: u32, x1: u32, y1: u32) -> RasterImage {
    let mut img = uniform(width, height, px(0, 0, 0, 255));
    fill_rect(&mut img, x0, y0, x1, y1, px(255, 255, 255, 255));
    img
}

#[test]
fn blank_middle_page_is_omitted_and_order_kept() {
    let pages = vec![
        bright_page(12, 12, 2, 2, 9, 9),
        uniform(12, 12, px(0, 0, 0, 255)),
        bright_page(12, 12, 4, 5, 6, 8),
    ];
    let config = CropConfig {
        gray_threshold: 150,
        margin_percent: 0,
        detector: DetectorKind::ContourRegion,
    };
    let results = PageCropPipeline::process_pages(pages, &config);
    assert_eq!(results.len(), 3);
    assert!(matches!(results[1], PageResult::Skipped));
    let kept: Vec<&RasterImage> = results
        .iter()
        .filter_map(|r| match r {
            PageResult::Cropped { image, .. } => Some(image),
            PageResult::Skipped => None,
        })
        .collect();
    assert_eq!(kept.len(), 2);
    // Page 1 and page 3 stay, in their original relative order,
    // recognizable by the sizes of their content regions.
    assert_eq!((kept[0].width, kept[0].height), (7, 7));
    assert_eq!((kept[1].width, kept[1].height), (2, 3));
}

#[test]
fn edge_scan_page_is_cropped_to_the_expanded_box() {
    let mut page = uniform(10, 10, px(255, 255, 255, 255));
    page.pixels[3 * 10 + 3] = px(0, 0, 0, 255);
    let config = CropConfig {
        gray_threshold: 150,
        margin_percent: 100,
        detector: DetectorKind::EdgeScan,
    };
    match PageCropPipeline::process_page(page, &config) {
        PageResult::Cropped { image, region } => {
            assert_eq!(region, BoundingBox { min_x: 0, min_y: 0, max_x: 6, max_y: 6 });
            assert_eq!((image.width, image.height), (6, 6));
            // The content pixel keeps its place in the cut-out.
            assert_eq!(image.pixels[3 * 6 + 3], px(0, 0, 0, 255));
        }
        PageResult::Skipped => panic!("page with content must not be skipped"),
    }
}

#[test]
fn zero_size_crop_is_skipped() {
    // With no margin kept, a single content pixel gives a degenerate
    // crop, which counts as a skip.
    let mut page = uniform(10, 10, px(255, 255, 255, 255));
    page.pixels[3 * 10 + 3] = px(0, 0, 0, 255);
    let config = CropConfig {
        gray_threshold: 150,
        margin_percent: 0,
        detector: DetectorKind::EdgeScan,
    };
    let r = PageCropPipeline::process_page(page, &config);
    assert!(matches!(r, PageResult::Skipped));
}

#[test]
fn contour_page_without_region_is_skipped() {
    let page = uniform(9, 7, px(0, 0, 0, 255));
    let config = CropConfig {
        gray_threshold: 150,
        margin_percent: 20,
        detector: DetectorKind::ContourRegion,
    };
    let r = PageCropPipeline::process_page(page, &config);
    assert!(matches!(r, PageResult::Skipped));
}

#[test]
fn edge_scan_never_drops_a_blank_page() {
    // A fully light page looks like "content touches every edge" to the
    // edge scan, so the page survives whole.
    let page = uniform(8, 6, px(255, 255, 255, 255));
    let config = CropConfig {
        gray_threshold: 150,
        margin_percent: 20,
        detector: DetectorKind::EdgeScan,
    };
    match PageCropPipeline::process_page(page, &config) {
        PageResult::Cropped { image, region } => {
            assert_eq!(region, BoundingBox { min_x: 0, min_y: 0, max_x: 8, max_y: 6 });
            assert_eq!((image.width, image.height), (8, 6));
        }
        PageResult::Skipped => panic!("edge scan must keep a blank page"),
    }
}
