//! The edge-scanning detection strategy: walk inward from each of the
//! four image edges, one row or column of pixels at a time, and stop at
//! the first line that holds a content pixel. A pixel is content iff it
//! is not fully transparent and its gray intensity lies below a fixed
//! threshold. An edge from which no content line is found keeps its
//! zero-margin extreme, so a page without content yields the full-image
//! box — indistinguishable, by design, from content touching the edge.

use vstd::prelude::*;
use crate::raster::{Pixel, RasterImage};
use crate::region::BoundingBox;

verus! {

/// The gray intensity of a pixel: the truncated mean of its three
/// color channels.
pub open spec fn gray_value(p: Pixel) -> int {
    (p.r + p.g + p.b) / 3
}

/// A pixel counts as content iff it is not fully transparent and its
/// gray intensity is strictly below the threshold.
pub open spec fn is_content_pixel(p: Pixel, threshold: u8) -> bool {
    p.a > 0 && gray_value(p) < threshold
}

/// Row `y` holds at least one content pixel.
pub open spec fn row_has_content(img: RasterImage, y: int, threshold: u8) -> bool {
    exists|x: int| 0 <= x < img.width
        && is_content_pixel(#[trigger] img.pixel_at(x, y), threshold)
}

/// Column `x` holds at least one content pixel.
pub open spec fn col_has_content(img: RasterImage, x: int, threshold: u8) -> bool {
    exists|y: int| 0 <= y < img.height
        && is_content_pixel(#[trigger] img.pixel_at(x, y), threshold)
}

/// The image holds at least one content pixel.
pub open spec fn image_has_content(img: RasterImage, threshold: u8) -> bool {
    exists|x: int, y: int| 0 <= x < img.width && 0 <= y < img.height
        && is_content_pixel(#[trigger] img.pixel_at(x, y), threshold)
}

/// `y` is where the scan from the top stops: the first content row, or
/// zero when the image has no content at all.
pub open spec fn is_top_edge(img: RasterImage, threshold: u8, y: u32) -> bool {
    if image_has_content(img, threshold) {
        &&& y < img.height
        &&& row_has_content(img, y as int, threshold)
        &&& forall|y2: int| 0 <= y2 < y ==> !row_has_content(img, y2, threshold)
    } else {
        y == 0
    }
}

/// `y` is where the scan from the bottom stops: the last content row,
/// or the full height when the image has no content at all.
pub open spec fn is_bottom_edge(img: RasterImage, threshold: u8, y: u32) -> bool {
    if image_has_content(img, threshold) {
        &&& y < img.height
        &&& row_has_content(img, y as int, threshold)
        &&& forall|y2: int| y < y2 < img.height ==> !row_has_content(img, y2, threshold)
    } else {
        y == img.height
    }
}

/// `x` is where the scan from the left stops: the first content column,
/// or zero when the image has no content at all.
pub open spec fn is_left_edge(img: RasterImage, threshold: u8, x: u32) -> bool {
    if image_has_content(img, threshold) {
        &&& x < img.width
        &&& col_has_content(img, x as int, threshold)
        &&& forall|x2: int| 0 <= x2 < x ==> !col_has_content(img, x2, threshold)
    } else {
        x == 0
    }
}

/// `x` is where the scan from the right stops: the last content column,
/// or the full width when the image has no content at all.
pub open spec fn is_right_edge(img: RasterImage, threshold: u8, x: u32) -> bool {
    if image_has_content(img, threshold) {
        &&& x < img.width
        &&& col_has_content(img, x as int, threshold)
        &&& forall|x2: int| x < x2 < img.width ==> !col_has_content(img, x2, threshold)
    } else {
        x == img.width
    }
}

/// `b` is exactly the box the four edge scans delimit.
pub open spec fn is_edge_box(img: RasterImage, threshold: u8, b: BoundingBox) -> bool {
    &&& is_top_edge(img, threshold, b.min_y)
    &&& is_bottom_edge(img, threshold, b.max_y)
    &&& is_left_edge(img, threshold, b.min_x)
    &&& is_right_edge(img, threshold, b.max_x)
}

/// The image holds a content pixel iff some row holds one.
pub proof fn lemma_content_iff_content_row(img: RasterImage, threshold: u8)
    ensures
        image_has_content(img, threshold)
            <==> exists|y: int| 0 <= y < img.height
                && #[trigger] row_has_content(img, y, threshold),
{
    if image_has_content(img, threshold) {
        let (x, y) = choose|x: int, y: int| 0 <= x < img.width && 0 <= y < img.height
            && is_content_pixel(#[trigger] img.pixel_at(x, y), threshold);
        assert(row_has_content(img, y, threshold));
    }
    if exists|y: int| 0 <= y < img.height && #[trigger] row_has_content(img, y, threshold) {
        let y = choose|y: int| 0 <= y < img.height
            && #[trigger] row_has_content(img, y, threshold);
        let x = choose|x: int| 0 <= x < img.width
            && is_content_pixel(#[trigger] img.pixel_at(x, y), threshold);
        assert(image_has_content(img, threshold));
    }
}

/// The image holds a content pixel iff some column holds one.
pub proof fn lemma_content_iff_content_col(img: RasterImage, threshold: u8)
    ensures
        image_has_content(img, threshold)
            <==> exists|x: int| 0 <= x < img.width
                && #[trigger] col_has_content(img, x, threshold),
{
    if image_has_content(img, threshold) {
        let (x, y) = choose|x: int, y: int| 0 <= x < img.width && 0 <= y < img.height
            && is_content_pixel(#[trigger] img.pixel_at(x, y), threshold);
        assert(col_has_content(img, x, threshold));
    }
    if exists|x: int| 0 <= x < img.width && #[trigger] col_has_content(img, x, threshold) {
        let x = choose|x: int| 0 <= x < img.width
            && #[trigger] col_has_content(img, x, threshold);
        let y = choose|y: int| 0 <= y < img.height
            && is_content_pixel(#[trigger] img.pixel_at(x, y), threshold);
        assert(image_has_content(img, threshold));
    }
}

/// An edge box is always ordered and lies within the image: on an axis
/// with content, first and last content line delimit it; on one
/// without, it spans from zero to the full dimension.
pub proof fn lemma_edge_box_ordered(img: RasterImage, threshold: u8, b: BoundingBox)
    requires
        is_edge_box(img, threshold, b),
    ensures
        b.min_x <= b.max_x <= img.width,
        b.min_y <= b.max_y <= img.height,
{
    if image_has_content(img, threshold) {
        assert(col_has_content(img, b.max_x as int, threshold));
        if b.max_x < b.min_x {
            assert(!col_has_content(img, b.max_x as int, threshold));
        }
        assert(row_has_content(img, b.max_y as int, threshold));
        if b.max_y < b.min_y {
            assert(!row_has_content(img, b.max_y as int, threshold));
        }
    }
}

/// On a fully transparent image the edge scan finds no content, so its
/// box is the full image: minima zero, maxima the image dimensions.
pub proof fn lemma_transparent_yields_full_box(img: RasterImage, threshold: u8, b: BoundingBox)
    requires
        forall|x: int, y: int| 0 <= x < img.width && 0 <= y < img.height
            ==> (#[trigger] img.pixel_at(x, y)).a == 0,
        is_edge_box(img, threshold, b),
    ensures
        b.min_x == 0,
        b.min_y == 0,
        b.max_x == img.width,
        b.max_y == img.height,
{
    if image_has_content(img, threshold) {
        let (x, y) = choose|x: int, y: int| 0 <= x < img.width && 0 <= y < img.height
            && is_content_pixel(#[trigger] img.pixel_at(x, y), threshold);
        assert(img.pixel_at(x, y).a == 0);
    }
}

/// When the content pixels are exactly a filled rectangle, the edge
/// scan returns exactly that rectangle's corner coordinates.
pub proof fn lemma_rectangle_yields_exact_box(img: RasterImage, threshold: u8, rx0: u32, ry0: u32, rx1: u32, ry1: u32, b: BoundingBox)
    requires
        rx0 <= rx1 < img.width,
        ry0 <= ry1 < img.height,
        forall|x: int, y: int| 0 <= x < img.width && 0 <= y < img.height
            ==> (is_content_pixel(#[trigger] img.pixel_at(x, y), threshold)
                <==> (rx0 <= x <= rx1 && ry0 <= y <= ry1)),
        is_edge_box(img, threshold, b),
    ensures
        b.min_x == rx0,
        b.min_y == ry0,
        b.max_x == rx1,
        b.max_y == ry1,
{
    assert(is_content_pixel(img.pixel_at(rx0 as int, ry0 as int), threshold));
    assert(is_content_pixel(img.pixel_at(rx0 as int, ry1 as int), threshold));
    assert(is_content_pixel(img.pixel_at(rx1 as int, ry0 as int), threshold));
    assert(image_has_content(img, threshold));
    assert(row_has_content(img, ry0 as int, threshold));
    assert(row_has_content(img, ry1 as int, threshold));
    assert(col_has_content(img, rx0 as int, threshold));
    assert(col_has_content(img, rx1 as int, threshold));
    let xw_top = choose|x: int| 0 <= x < img.width
        && is_content_pixel(#[trigger] img.pixel_at(x, b.min_y as int), threshold);
    assert(ry0 <= b.min_y);
    if ry0 < b.min_y {
        assert(!row_has_content(img, ry0 as int, threshold));
    }
    let xw_bottom = choose|x: int| 0 <= x < img.width
        && is_content_pixel(#[trigger] img.pixel_at(x, b.max_y as int), threshold);
    assert(b.max_y <= ry1);
    if b.max_y < ry1 {
        assert(!row_has_content(img, ry1 as int, threshold));
    }
    let yw_left = choose|y: int| 0 <= y < img.height
        && is_content_pixel(#[trigger] img.pixel_at(b.min_x as int, y), threshold);
    assert(rx0 <= b.min_x);
    if rx0 < b.min_x {
        assert(!col_has_content(img, rx0 as int, threshold));
    }
    let yw_right = choose|y: int| 0 <= y < img.height
        && is_content_pixel(#[trigger] img.pixel_at(b.max_x as int, y), threshold);
    assert(b.max_x <= rx1);
    if b.max_x < rx1 {
        assert(!col_has_content(img, rx1 as int, threshold));
    }
}

/// Every content pixel of an image with content lies inside its edge box.
pub proof fn lemma_content_within_edge_box(img: RasterImage, threshold: u8, b: BoundingBox, x: int, y: int)
    requires
        is_edge_box(img, threshold, b),
        0 <= x < img.width,
        0 <= y < img.height,
        is_content_pixel(img.pixel_at(x, y), threshold),
    ensures
        b.min_x <= x <= b.max_x,
        b.min_y <= y <= b.max_y,
{
    assert(image_has_content(img, threshold));
    assert(row_has_content(img, y, threshold));
    assert(col_has_content(img, x, threshold));
    if x < b.min_x {
        assert(!col_has_content(img, x, threshold));
    }
    if x > b.max_x {
        assert(!col_has_content(img, x, threshold));
    }
    if y < b.min_y {
        assert(!row_has_content(img, y, threshold));
    }
    if y > b.max_y {
        assert(!row_has_content(img, y, threshold));
    }
}

/// Cropping an image with content to the closed extent of its edge box
/// and measuring again yields a box that touches all four edges of the
/// crop: no further marginal content is found.
pub proof fn lemma_remeasure_after_crop_touches_edges(img: RasterImage, threshold: u8, b: BoundingBox, cropped: RasterImage, b2: BoundingBox)
    requires
        img.wf(),
        image_has_content(img, threshold),
        is_edge_box(img, threshold, b),
        crate::raster::is_crop_of(cropped, img, b.min_x, b.min_y,
            (b.max_x - b.min_x + 1) as u32, (b.max_y - b.min_y + 1) as u32),
        is_edge_box(cropped, threshold, b2),
    ensures
        cropped.width == b.max_x - b.min_x + 1,
        cropped.height == b.max_y - b.min_y + 1,
        b2.min_x == 0,
        b2.min_y == 0,
        b2.max_x + 1 == cropped.width,
        b2.max_y + 1 == cropped.height,
{
    lemma_edge_box_ordered(img, threshold, b);
    assert(b.max_x < img.width && b.max_y < img.height);
    assert(cropped.width == b.max_x - b.min_x + 1);
    assert(cropped.height == b.max_y - b.min_y + 1);

    // The first and last content row of the image reappear as the first
    // and last row of the crop, and likewise for the columns.
    let xtop = choose|x: int| 0 <= x < img.width
        && is_content_pixel(#[trigger] img.pixel_at(x, b.min_y as int), threshold);
    lemma_content_within_edge_box(img, threshold, b, xtop, b.min_y as int);
    assert(cropped.pixel_at(xtop - b.min_x, 0) == img.pixel_at(xtop, b.min_y as int));
    assert(row_has_content(cropped, 0, threshold));

    let xbot = choose|x: int| 0 <= x < img.width
        && is_content_pixel(#[trigger] img.pixel_at(x, b.max_y as int), threshold);
    lemma_content_within_edge_box(img, threshold, b, xbot, b.max_y as int);
    assert(cropped.pixel_at(xbot - b.min_x, cropped.height - 1)
        == img.pixel_at(xbot, b.max_y as int));
    assert(row_has_content(cropped, cropped.height - 1, threshold));

    let yleft = choose|y: int| 0 <= y < img.height
        && is_content_pixel(#[trigger] img.pixel_at(b.min_x as int, y), threshold);
    lemma_content_within_edge_box(img, threshold, b, b.min_x as int, yleft);
    assert(cropped.pixel_at(0, yleft - b.min_y) == img.pixel_at(b.min_x as int, yleft));
    assert(col_has_content(cropped, 0, threshold));

    let yright = choose|y: int| 0 <= y < img.height
        && is_content_pixel(#[trigger] img.pixel_at(b.max_x as int, y), threshold);
    lemma_content_within_edge_box(img, threshold, b, b.max_x as int, yright);
    assert(cropped.pixel_at(cropped.width - 1, yright - b.min_y)
        == img.pixel_at(b.max_x as int, yright));
    assert(col_has_content(cropped, cropped.width - 1, threshold));

    assert(image_has_content(cropped, threshold)) by {
        lemma_content_iff_content_row(cropped, threshold);
    }
    if b2.min_y > 0 {
        assert(!row_has_content(cropped, 0, threshold));
    }
    if b2.max_y + 1 < cropped.height {
        assert(!row_has_content(cropped, cropped.height - 1, threshold));
    }
    if b2.min_x > 0 {
        assert(!col_has_content(cropped, 0, threshold));
    }
    if b2.max_x + 1 < cropped.width {
        assert(!col_has_content(cropped, cropped.width - 1, threshold));
    }
}

/// Whether row `y` holds a content pixel, by scanning it left to right.
fn row_scan(img: &RasterImage, y: u32, threshold: u8) -> (r: bool)
    requires
        img.wf(),
        y < img.height,
    ensures
        r == row_has_content(*img, y as int, threshold),
{
    let mut x: u32 = 0;
    while x < img.width
        invariant
            img.wf(),
            y < img.height,
            x <= img.width,
            forall|x2: int| 0 <= x2 < x
                ==> !is_content_pixel(#[trigger] img.pixel_at(x2, y as int), threshold),
        decreases img.width - x,
    {
        let p = img.pixel(x, y);
        let gray: u16 = (p.r as u16 + p.g as u16 + p.b as u16) / 3;
        if p.a > 0 && gray < threshold as u16 {
            return true;
        }
        x = x + 1;
    }
    false
}

/// Whether column `x` holds a content pixel, by scanning it top to bottom.
fn col_scan(img: &RasterImage, x: u32, threshold: u8) -> (r: bool)
    requires
        img.wf(),
        x < img.width,
    ensures
        r == col_has_content(*img, x as int, threshold),
{
    let mut y: u32 = 0;
    while y < img.height
        invariant
            img.wf(),
            x < img.width,
            y <= img.height,
            forall|y2: int| 0 <= y2 < y
                ==> !is_content_pixel(#[trigger] img.pixel_at(x as int, y2), threshold),
        decreases img.height - y,
    {
        let p = img.pixel(x, y);
        let gray: u16 = (p.r as u16 + p.g as u16 + p.b as u16) / 3;
        if p.a > 0 && gray < threshold as u16 {
            return true;
        }
        y = y + 1;
    }
    false
}

/// The first content row from the top, if any.
fn first_content_row(img: &RasterImage, threshold: u8) -> (r: Option<u32>)
    requires
        img.wf(),
    ensures
        match r {
            Some(y) => {
                &&& y < img.height
                &&& row_has_content(*img, y as int, threshold)
                &&& forall|y2: int| 0 <= y2 < y ==> !row_has_content(*img, y2, threshold)
            },
            None => forall|y2: int| 0 <= y2 < img.height
                ==> !row_has_content(*img, y2, threshold),
        },
{
    let mut y: u32 = 0;
    while y < img.height
        invariant
            img.wf(),
            y <= img.height,
            forall|y2: int| 0 <= y2 < y ==> !row_has_content(*img, y2, threshold),
        decreases img.height - y,
    {
        if row_scan(img, y, threshold) {
            return Some(y);
        }
        y = y + 1;
    }
    None
}

/// The last content row before the bottom, if any.
fn last_content_row(img: &RasterImage, threshold: u8) -> (r: Option<u32>)
    requires
        img.wf(),
    ensures
        match r {
            Some(y) => {
                &&& y < img.height
                &&& row_has_content(*img, y as int, threshold)
                &&& forall|y2: int| y < y2 < img.height ==> !row_has_content(*img, y2, threshold)
            },
            None => forall|y2: int| 0 <= y2 < img.height
                ==> !row_has_content(*img, y2, threshold),
        },
{
    let mut y: u32 = img.height;
    while y > 0
        invariant
            img.wf(),
            y <= img.height,
            forall|y2: int| y <= y2 < img.height ==> !row_has_content(*img, y2, threshold),
        decreases y,
    {
        y = y - 1;
        if row_scan(img, y, threshold) {
            return Some(y);
        }
    }
    None
}

/// The first content column from the left, if any.
fn first_content_col(img: &RasterImage, threshold: u8) -> (r: Option<u32>)
    requires
        img.wf(),
    ensures
        match r {
            Some(x) => {
                &&& x < img.width
                &&& col_has_content(*img, x as int, threshold)
                &&& forall|x2: int| 0 <= x2 < x ==> !col_has_content(*img, x2, threshold)
            },
            None => forall|x2: int| 0 <= x2 < img.width
                ==> !col_has_content(*img, x2, threshold),
        },
{
    let mut x: u32 = 0;
    while x < img.width
        invariant
            img.wf(),
            x <= img.width,
            forall|x2: int| 0 <= x2 < x ==> !col_has_content(*img, x2, threshold),
        decreases img.width - x,
    {
        if col_scan(img, x, threshold) {
            return Some(x);
        }
        x = x + 1;
    }
    None
}

/// The last content column before the right edge, if any.
fn last_content_col(img: &RasterImage, threshold: u8) -> (r: Option<u32>)
    requires
        img.wf(),
    ensures
        match r {
            Some(x) => {
                &&& x < img.width
                &&& col_has_content(*img, x as int, threshold)
                &&& forall|x2: int| x < x2 < img.width ==> !col_has_content(*img, x2, threshold)
            },
            None => forall|x2: int| 0 <= x2 < img.width
                ==> !col_has_content(*img, x2, threshold),
        },
{
    let mut x: u32 = img.width;
    while x > 0
        invariant
            img.wf(),
            x <= img.width,
            forall|x2: int| x <= x2 < img.width ==> !col_has_content(*img, x2, threshold),
        decreases x,
    {
        x = x - 1;
        if col_scan(img, x, threshold) {
            return Some(x);
        }
    }
    None
}

/// Detects the content region by scanning inward from the four edges.
pub struct EdgeScanDetector;

impl EdgeScanDetector {
    /// Returns the box spanned by the first and last content row and
    /// column. An axis without content keeps the whole image: minimum 0
    /// and maximum equal to the image dimension.
    pub fn detect(img: &RasterImage, gray_threshold: u8) -> (b: BoundingBox)
        requires
            img.wf(),
        ensures
            is_edge_box(*img, gray_threshold, b),
    {
        proof {
            lemma_content_iff_content_row(*img, gray_threshold);
            lemma_content_iff_content_col(*img, gray_threshold);
        }
        let min_y: u32 = match first_content_row(img, gray_threshold) {
            Some(y) => y,
            None => 0,
        };
        let max_y: u32 = match last_content_row(img, gray_threshold) {
            Some(y) => y,
            None => img.height,
        };
        let min_x: u32 = match first_content_col(img, gray_threshold) {
            Some(x) => x,
            None => 0,
        };
        let max_x: u32 = match last_content_col(img, gray_threshold) {
            Some(x) => x,
            None => img.width,
        };
        BoundingBox { min_x, min_y, max_x, max_y }
    }
}

} // verus!
