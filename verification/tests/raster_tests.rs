use margin_crop::raster::{crop, from_rgba_bytes, Pixel, RasterImage};

fn px(r: u8, g: u8, b: u8, a: u8) -> Pixel {
    Pixel { r, g, b, a }
}

#[test]
fn new_accepts_exact_buffer() {
    let img = RasterImage::new(3, 2, vec![px(1, 2, 3, 255); 6]).unwrap();
    assert_eq!(img.width, 3);
    assert_eq!(img.height, 2);
    assert_eq!(img.pixels.len(), 6);
}

#[test]
fn new_rejects_wrong_length() {
    assert!(RasterImage::new(3, 2, vec![px(0, 0, 0, 0); 5]).is_none());
    assert!(RasterImage::new(3, 2, vec![px(0, 0, 0, 0); 7]).is_none());
}

#[test]
fn from_rgba_bytes_reads_groups_of_four() {
    let bytes = vec![
        1, 2, 3, 4, 5, 6, 7, 8, //
        9, 10, 11, 12, 13, 14, 15, 16,
    ];
    let img = from_rgba_bytes(2, 2, &bytes).unwrap();
    assert_eq!(img.pixels[0], px(1, 2, 3, 4));
    assert_eq!(img.pixels[1], px(5, 6, 7, 8));
    assert_eq!(img.pixels[2], px(9, 10, 11, 12));
    assert_eq!(img.pixels[3], px(13, 14, 15, 16));
}

#[test]
fn from_rgba_bytes_rejects_wrong_length() {
    assert!(from_rgba_bytes(2, 2, &vec![0u8; 15]).is_none());
    assert!(from_rgba_bytes(2, 2, &vec![0u8; 17]).is_none());
}

#[test]
fn crop_cuts_the_requested_rectangle() {
    // 4x3 image whose pixel at (x, y) has r = x and g = y.
    let mut pixels = Vec::new();
    for y in 0..3u8 {
        for x in 0..4u8 {
            pixels.push(px(x, y, 0, 255));
        }
    }
    let img = RasterImage::new(4, 3, pixels).unwrap();
    let c = crop(&img, 1, 1, 2, 2);
    assert_eq!(c.width, 2);
    assert_eq!(c.height, 2);
    assert_eq!(c.pixels[0], px(1, 1, 0, 255));
    assert_eq!(c.pixels[1], px(2, 1, 0, 255));
    assert_eq!(c.pixels[2], px(1, 2, 0, 255));
    assert_eq!(c.pixels[3], px(2, 2, 0, 255));
}

#[test]
fn crop_clamps_to_image_bounds() {
    let img = RasterImage::new(4, 3, vec![px(9, 9, 9, 255); 12]).unwrap();
    let c = crop(&img, 2, 1, 10, 10);
    assert_eq!(c.width, 2);
    assert_eq!(c.height, 2);
    let c2 = crop(&img, 7, 9, 1, 1);
    assert_eq!(c2.width, 0);
    assert_eq!(c2.height, 0);
    assert!(c2.pixels.is_empty());
}
