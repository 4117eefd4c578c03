//! The contour-based detection strategy: the page is converted to
//! grayscale, binarized at an Otsu threshold, and the extents of all
//! connected-component contours found at that threshold are unioned
//! into one box. The box is then widened by a share of the remaining
//! whitespace — the divisor is 200 because the offset is applied to
//! both sides of each axis — and clamped to the image. A page without
//! any contour, or whose widened union collapses to a single row or
//! column, yields no region at all: it is meant to be dropped.
//!
//! Grayscale conversion, Otsu thresholding and contour extraction are
//! done by outside code behind trusted wrappers; everything from the
//! contour points onward is verified.

use vstd::prelude::*;
use vstd::arithmetic::div_mod::{
    lemma_div_is_ordered, lemma_fundamental_div_mod, lemma_fundamental_div_mod_converse,
    lemma_mod_bound,
};
use vstd::math::{max, min};
use crate::raster::{Pixel, RasterImage};
use crate::region::BoundingBox;

verus! {

broadcast use vstd::seq_lib::group_seq_properties;

/// The gray value of one RGBA pixel under the sRGB luma weights that
/// the grayscale conversion uses; alpha plays no part.
pub open spec fn spec_luma(p: Pixel) -> int {
    (2126 * p.r + 7152 * p.g + 722 * p.b) / 10000
}

/// The grayscale view of an image: its pixel buffer after luma
/// conversion, in the same row-major order.
pub open spec fn luma_seq(img: RasterImage) -> Seq<u8> {
    img.pixels@.map_values(|p: Pixel| spec_luma(p) as u8)
}

/// The binarization threshold that Otsu's method picks for a gray
/// buffer. It depends on the histogram of the gray values alone.
pub uninterp spec fn otsu_threshold(gray: Seq<u8>) -> u8;

/// The contours of a gray image at a threshold: one sequence of
/// `(x, y)` points per detected border, a function of the image
/// dimensions, the gray values and the threshold alone.
pub uninterp spec fn contour_points(width: int, height: int, gray: Seq<u8>, threshold: u8) -> Seq<Seq<(u32, u32)>>;

/// The page is small enough for the contour analysis: both dimensions
/// convert to 32-bit signed coordinates, and an intensity times the
/// pixel count stays within 32 unsigned bits, which the thresholding
/// arithmetic needs.
pub open spec fn fits_contour_analysis(width: u32, height: u32) -> bool {
    &&& width as int <= i32::MAX as int
    &&& height as int <= i32::MAX as int
    &&& 255 * ((width as int) * (height as int)) <= u32::MAX as int
}

/// Relies on `image::imageops::grayscale`: every RGBA pixel becomes the
/// single gray value `(2126*r + 7152*g + 722*b) / 10000` (integer
/// arithmetic, alpha ignored), kept in row-major order.
#[verifier::external_body]
fn luma_pixels(img: &RasterImage) -> (r: Vec<u8>)
    requires
        img.wf(),
    ensures
        r@.len() == img.pixels@.len(),
        forall|k: int| 0 <= k < r@.len() ==> r@[k] == spec_luma(img.pixels@[k]),
{
    let raw: Vec<u8> = img.pixels.iter().flat_map(|p| [p.r, p.g, p.b, p.a]).collect();
    let buf = image::RgbaImage::from_raw(img.width, img.height, raw).unwrap();
    image::imageops::grayscale(&buf).into_raw()
}

/// Relies on `imageproc::contrast::otsu_level`: the threshold that
/// minimizes intra-class intensity variance over the histogram of the
/// gray values; a function of those values alone. Its arithmetic
/// multiplies an intensity by a pixel count in 32 unsigned bits, so
/// pages beyond the `fits_contour_analysis` bound are left out.
#[verifier::external_body]
fn otsu_level_of(width: u32, height: u32, gray: &Vec<u8>) -> (r: u8)
    requires
        gray@.len() == (width as int) * (height as int),
        fits_contour_analysis(width, height),
    ensures
        r == otsu_threshold(gray@),
{
    let buf = image::GrayImage::from_raw(width, height, gray.clone()).unwrap();
    imageproc::contrast::otsu_level(&buf)
}

/// Relies on `imageproc::contours::find_contours_with_threshold`: the
/// borders of the connected regions of pixels strictly brighter than
/// the threshold, a function of image and threshold alone; every
/// returned point is a pixel position inside the image. The border
/// following carries coordinates and border numbers in `i32`, so pages
/// beyond the `fits_contour_analysis` bound are left out.
#[verifier::external_body]
fn find_contour_points(width: u32, height: u32, gray: &Vec<u8>, threshold: u8) -> (r: Vec<Vec<(u32, u32)>>)
    requires
        gray@.len() == (width as int) * (height as int),
        fits_contour_analysis(width, height),
    ensures
        r@.map_values(|c: Vec<(u32, u32)>| c@)
            == contour_points(width as int, height as int, gray@, threshold),
        forall|a: int, b: int| 0 <= a < r@.len() && 0 <= b < r@[a]@.len()
            ==> (#[trigger] r@[a]@[b]).0 < width && r@[a]@[b].1 < height,
{
    let buf = image::GrayImage::from_raw(width, height, gray.clone()).unwrap();
    let contours = imageproc::contours::find_contours_with_threshold::<u32>(&buf, threshold);
    contours.into_iter().map(|c| c.points.into_iter().map(|p| (p.x, p.y)).collect()).collect()
}

/// The view of a vector of contours: each contour as a sequence.
pub open spec fn views_of(points: Seq<Vec<(u32, u32)>>) -> Seq<Seq<(u32, u32)>> {
    points.map_values(|c: Vec<(u32, u32)>| c@)
}

/// `(a, b)` addresses a point of contour set `css`.
pub open spec fn valid_index(css: Seq<Seq<(u32, u32)>>, a: int, b: int) -> bool {
    0 <= a < css.len() && 0 <= b < css[a].len()
}

/// The contour set holds at least one point.
pub open spec fn has_point(css: Seq<Seq<(u32, u32)>>) -> bool {
    exists|a: int, b: int| valid_index(css, a, b)
}

/// `p` is one of the points of the contour set.
pub open spec fn point_of(css: Seq<Seq<(u32, u32)>>, p: (u32, u32)) -> bool {
    exists|a: int, b: int| valid_index(css, a, b) && css[a][b] == p
}

/// Every point of the contour set lies inside a `w` by `h` image.
pub open spec fn points_within(css: Seq<Seq<(u32, u32)>>, w: int, h: int) -> bool {
    forall|a: int, b: int| valid_index(css, a, b)
        ==> (#[trigger] css[a][b]).0 < w && css[a][b].1 < h
}

/// `v` is the least x-coordinate over all points of the contour set.
pub open spec fn is_lowest_x(css: Seq<Seq<(u32, u32)>>, v: int) -> bool {
    &&& exists|a: int, b: int| valid_index(css, a, b) && (#[trigger] css[a][b]).0 == v
    &&& forall|a: int, b: int| valid_index(css, a, b) ==> v <= (#[trigger] css[a][b]).0
}

/// `v` is the least y-coordinate over all points of the contour set.
pub open spec fn is_lowest_y(css: Seq<Seq<(u32, u32)>>, v: int) -> bool {
    &&& exists|a: int, b: int| valid_index(css, a, b) && (#[trigger] css[a][b]).1 == v
    &&& forall|a: int, b: int| valid_index(css, a, b) ==> v <= (#[trigger] css[a][b]).1
}

/// `v` is the greatest x-coordinate over all points of the contour set.
pub open spec fn is_highest_x(css: Seq<Seq<(u32, u32)>>, v: int) -> bool {
    &&& exists|a: int, b: int| valid_index(css, a, b) && (#[trigger] css[a][b]).0 == v
    &&& forall|a: int, b: int| valid_index(css, a, b) ==> (#[trigger] css[a][b]).0 <= v
}

/// `v` is the greatest y-coordinate over all points of the contour set.
pub open spec fn is_highest_y(css: Seq<Seq<(u32, u32)>>, v: int) -> bool {
    &&& exists|a: int, b: int| valid_index(css, a, b) && (#[trigger] css[a][b]).1 == v
    &&& forall|a: int, b: int| valid_index(css, a, b) ==> (#[trigger] css[a][b]).1 <= v
}

/// The union box `(mnx, mny, mxx, mxy)` widened by `percent` of the
/// remaining whitespace — half per side, hence the divisor 200 — and
/// clamped to the image; no region at all if the result is degenerate.
pub open spec fn expanded_region(mnx: int, mny: int, mxx: int, mxy: int, w: int, h: int, percent: int) -> Option<BoundingBox> {
    let off_x = (w - (mxx - mnx)) * percent / 200;
    let off_y = (h - (mxy - mny)) * percent / 200;
    let nmnx = max(mnx - off_x, 0);
    let nmny = max(mny - off_y, 0);
    let nmxx = min(mxx + off_x, w);
    let nmxy = min(mxy + off_y, h);
    if nmnx < nmxx && nmny < nmxy {
        Some(BoundingBox {
            min_x: nmnx as u32,
            min_y: nmny as u32,
            max_x: nmxx as u32,
            max_y: nmxy as u32,
        })
    } else {
        None
    }
}

/// `r` is the region the contour aggregation yields: nothing when there
/// is no contour point, otherwise the expanded union of all extents.
pub open spec fn region_of_contours(css: Seq<Seq<(u32, u32)>>, w: int, h: int, percent: int, r: Option<BoundingBox>) -> bool {
    if has_point(css) {
        exists|mnx: int, mny: int, mxx: int, mxy: int| {
            &&& #[trigger] is_lowest_x(css, mnx)
            &&& #[trigger] is_lowest_y(css, mny)
            &&& #[trigger] is_highest_x(css, mxx)
            &&& #[trigger] is_highest_y(css, mxy)
            &&& r == expanded_region(mnx, mny, mxx, mxy, w, h, percent)
        }
    } else {
        r is None
    }
}

/// All contour points in one flat vector, in some order; membership is
/// the same in both directions.
fn flatten_points(points: &Vec<Vec<(u32, u32)>>) -> (r: Vec<(u32, u32)>)
    ensures
        forall|k: int| 0 <= k < r@.len() ==> point_of(views_of(points@), #[trigger] r@[k]),
        forall|a: int, b: int| valid_index(views_of(points@), a, b)
            ==> r@.contains(#[trigger] views_of(points@)[a][b]),
{
    let ghost css = views_of(points@);
    let mut r: Vec<(u32, u32)> = Vec::new();
    let mut a: usize = 0;
    while a < points.len()
        invariant
            css == views_of(points@),
            a <= points@.len(),
            forall|k: int| 0 <= k < r@.len() ==> point_of(css, #[trigger] r@[k]),
            forall|a2: int, b2: int| valid_index(css, a2, b2) && a2 < a
                ==> r@.contains(#[trigger] css[a2][b2]),
        decreases points@.len() - a,
    {
        let row = &points[a];
        let mut b: usize = 0;
        while b < row.len()
            invariant
                css == views_of(points@),
                a < points@.len(),
                row == &points[a as int],
                b <= row@.len(),
                forall|k: int| 0 <= k < r@.len() ==> point_of(css, #[trigger] r@[k]),
                forall|a2: int, b2: int| valid_index(css, a2, b2) && a2 < a
                    ==> r@.contains(#[trigger] css[a2][b2]),
                forall|b2: int| 0 <= b2 < b ==> r@.contains(#[trigger] css[a as int][b2]),
            decreases row@.len() - b,
        {
            let p = row[b];
            r.push(p);
            proof {
                assert(css[a as int][b as int] == p);
                assert(valid_index(css, a as int, b as int));
                assert(r@[r@.len() - 1] == p);
                assert(r@.contains(p));
            }
            b = b + 1;
        }
        a = a + 1;
    }
    r
}

/// Unions the extents of all contour points into one box and widens it
/// by `margin_percent` of the remaining whitespace; `None` exactly when
/// the aggregation yields no usable region.
pub fn region_from_points(points: &Vec<Vec<(u32, u32)>>, width: u32, height: u32, margin_percent: u32) -> (r: Option<BoundingBox>)
    requires
        points_within(views_of(points@), width as int, height as int),
    ensures
        region_of_contours(views_of(points@), width as int, height as int, margin_percent as int, r),
{
    let ghost css = views_of(points@);
    let flat = flatten_points(points);
    if flat.len() == 0 {
        proof {
            if has_point(css) {
                let (a, b) = choose|a: int, b: int| valid_index(css, a, b);
                assert(flat@.contains(css[a][b]));
            }
        }
        return None;
    }
    let p0 = flat[0];
    let mut mnx: u32 = p0.0;
    let mut mny: u32 = p0.1;
    let mut mxx: u32 = p0.0;
    let mut mxy: u32 = p0.1;
    let mut k: usize = 1;
    while k < flat.len()
        invariant
            1 <= k <= flat@.len(),
            exists|t: int| 0 <= t < k && (#[trigger] flat@[t]).0 == mnx,
            exists|t: int| 0 <= t < k && (#[trigger] flat@[t]).1 == mny,
            exists|t: int| 0 <= t < k && (#[trigger] flat@[t]).0 == mxx,
            exists|t: int| 0 <= t < k && (#[trigger] flat@[t]).1 == mxy,
            forall|t: int| 0 <= t < k ==> mnx <= (#[trigger] flat@[t]).0 <= mxx,
            forall|t: int| 0 <= t < k ==> mny <= (#[trigger] flat@[t]).1 <= mxy,
        decreases flat@.len() - k,
    {
        let p = flat[k];
        if p.0 < mnx {
            mnx = p.0;
        }
        if p.1 < mny {
            mny = p.1;
        }
        if p.0 > mxx {
            mxx = p.0;
        }
        if p.1 > mxy {
            mxy = p.1;
        }
        k = k + 1;
    }
    proof {
        assert forall|a: int, b: int| valid_index(css, a, b)
            implies mnx <= (#[trigger] css[a][b]).0 <= mxx
                && mny <= css[a][b].1 <= mxy by {
            assert(flat@.contains(css[a][b]));
            let t = choose|t: int| 0 <= t < flat@.len() && flat@[t] == css[a][b];
            assert(mnx <= flat@[t].0 <= mxx);
            assert(mny <= flat@[t].1 <= mxy);
        }
        let tx = choose|t: int| 0 <= t < flat@.len() && (#[trigger] flat@[t]).0 == mnx;
        assert(point_of(css, flat@[tx]));
        let (a1, b1) = choose|a: int, b: int| valid_index(css, a, b) && css[a][b] == flat@[tx];
        assert((css[a1][b1]).0 == mnx);
        let ty = choose|t: int| 0 <= t < flat@.len() && (#[trigger] flat@[t]).1 == mny;
        assert(point_of(css, flat@[ty]));
        let (a2, b2) = choose|a: int, b: int| valid_index(css, a, b) && css[a][b] == flat@[ty];
        assert((css[a2][b2]).1 == mny);
        let tmx = choose|t: int| 0 <= t < flat@.len() && (#[trigger] flat@[t]).0 == mxx;
        assert(point_of(css, flat@[tmx]));
        let (a3, b3) = choose|a: int, b: int| valid_index(css, a, b) && css[a][b] == flat@[tmx];
        assert((css[a3][b3]).0 == mxx);
        let tmy = choose|t: int| 0 <= t < flat@.len() && (#[trigger] flat@[t]).1 == mxy;
        assert(point_of(css, flat@[tmy]));
        let (a4, b4) = choose|a: int, b: int| valid_index(css, a, b) && css[a][b] == flat@[tmy];
        assert((css[a4][b4]).1 == mxy);
        assert(is_lowest_x(css, mnx as int));
        assert(is_lowest_y(css, mny as int));
        assert(is_highest_x(css, mxx as int));
        assert(is_highest_y(css, mxy as int));
        assert(mxx < width && mxy < height);
        assert(mnx <= mxx && mny <= mxy);
        assert((width as int - (mxx - mnx)) * (margin_percent as int) < 0x1_0000_0000_0000_0000int)
            by (nonlinear_arith)
            requires mnx <= mxx < width < 0x1_0000_0000, margin_percent < 0x1_0000_0000,
        ;
        assert((height as int - (mxy - mny)) * (margin_percent as int) < 0x1_0000_0000_0000_0000int)
            by (nonlinear_arith)
            requires mny <= mxy < height < 0x1_0000_0000, margin_percent < 0x1_0000_0000,
        ;
    }
    let off_x64: u64 = ((width - mxx + mnx) as u64) * (margin_percent as u64) / 200;
    let off_y64: u64 = ((height - mxy + mny) as u64) * (margin_percent as u64) / 200;
    let nmnx: u32 = if off_x64 >= mnx as u64 { 0 } else { mnx - off_x64 as u32 };
    let nmny: u32 = if off_y64 >= mny as u64 { 0 } else { mny - off_y64 as u32 };
    let nmxx: u32 = if off_x64 >= (width - mxx) as u64 { width } else { mxx + off_x64 as u32 };
    let nmxy: u32 = if off_y64 >= (height - mxy) as u64 { height } else { mxy + off_y64 as u32 };
    let r: Option<BoundingBox> = if nmnx < nmxx && nmny < nmxy {
        Some(BoundingBox { min_x: nmnx, min_y: nmny, max_x: nmxx, max_y: nmxy })
    } else {
        None
    };
    proof {
        assert(r == expanded_region(mnx as int, mny as int, mxx as int, mxy as int,
            width as int, height as int, margin_percent as int));
        assert(region_of_contours(css, width as int, height as int, margin_percent as int, r));
    }
    r
}

/// A region the contour aggregation does yield is ordered, with room on
/// both axes, and lies within the image.
pub proof fn lemma_region_some_ordered(css: Seq<Seq<(u32, u32)>>, w: int, h: int, percent: int, b: BoundingBox)
    requires
        region_of_contours(css, w, h, percent, Some(b)),
        0 <= w <= u32::MAX,
        0 <= h <= u32::MAX,
    ensures
        b.min_x < b.max_x <= w,
        b.min_y < b.max_y <= h,
{
    let (mnx, mny, mxx, mxy) = choose|mnx: int, mny: int, mxx: int, mxy: int| {
        &&& #[trigger] is_lowest_x(css, mnx)
        &&& #[trigger] is_lowest_y(css, mny)
        &&& #[trigger] is_highest_x(css, mxx)
        &&& #[trigger] is_highest_y(css, mxy)
        &&& Some(b) == expanded_region(mnx, mny, mxx, mxy, w, h, percent)
    };
    let (a1, b1) = choose|a: int, b2: int| valid_index(css, a, b2) && (#[trigger] css[a][b2]).0 == mxx;
    let (a2, b2) = choose|a: int, b2: int| valid_index(css, a, b2) && (#[trigger] css[a][b2]).1 == mxy;
    assert(mxx >= 0 && mxy >= 0);
}

/// The whitespace offset scales with the axis within one scaled pixel:
/// an axis with whitespace budget `m` scaled by `k` has budget
/// `k*m - (k-1)`, and its offset differs from `k` times the unscaled
/// offset by at most `k - 1`.
proof fn lemma_offset_scales(m: int, p: int, k: int)
    requires
        1 <= m,
        0 <= p <= 200,
        1 <= k,
    ensures
        k * (m * p / 200) - (k - 1) <= (k * m - (k - 1)) * p / 200,
        (k * m - (k - 1)) * p / 200 <= k * (m * p / 200) + (k - 1),
{
    let a = m * p;
    let q = a / 200;
    let r = a % 200;
    lemma_fundamental_div_mod(a, 200);
    lemma_mod_bound(a, 200);
    let q2 = (k * r) / 200;
    let r2 = (k * r) % 200;
    lemma_fundamental_div_mod(k * r, 200);
    lemma_mod_bound(k * r, 200);
    assert(k * r <= 200 * k - 1) by (nonlinear_arith)
        requires 0 <= r < 200, 1 <= k,
    ;
    lemma_div_is_ordered(k * r, 200 * k - 1, 200);
    lemma_fundamental_div_mod_converse(200 * k - 1, 200, k - 1, 199);
    assert(q2 <= k - 1);
    assert(k * r >= 0) by (nonlinear_arith)
        requires 0 <= r, 1 <= k,
    ;
    assert(0 <= q2);
    let ak = (k * m - (k - 1)) * p;
    assert(ak == k * a - (k - 1) * p) by (nonlinear_arith)
        requires a == m * p, ak == (k * m - (k - 1)) * p,
    ;
    assert(0 <= (k - 1) * p) by (nonlinear_arith)
        requires 1 <= k, 0 <= p,
    ;
    assert(k * a == (k * q + q2) * 200 + r2) by (nonlinear_arith)
        requires a == 200 * q + r, k * r == 200 * q2 + r2,
    ;
    lemma_fundamental_div_mod_converse(k * a, 200, k * q + q2, r2);
    lemma_div_is_ordered(ak, k * a, 200);
    assert(ak / 200 <= k * q + q2);
    assert((k - 1) * p <= 200 * (k - 1)) by (nonlinear_arith)
        requires 0 <= p <= 200, 1 <= k,
    ;
    assert(k * a - 200 * (k - 1) == (k * q - (k - 1) + q2) * 200 + r2) by (nonlinear_arith)
        requires k * a == (k * q + q2) * 200 + r2,
    ;
    lemma_fundamental_div_mod_converse(k * a - 200 * (k - 1), 200, k * q - (k - 1) + q2, r2);
    lemma_div_is_ordered(k * a - 200 * (k - 1), ak, 200);
    assert(k * q - (k - 1) + q2 <= ak / 200);
}

/// One axis of the scaled expansion: the scaled minimum lands within
/// `k - 1` of `k` times the unscaled minimum, the scaled maximum within
/// `2 * (k - 1)` above `k` times the unscaled maximum.
proof fn lemma_axis_scales(mn: int, mx: int, d: int, p: int, k: int)
    requires
        0 <= mn <= mx < d,
        0 <= p <= 200,
        1 <= k,
    ensures
        ({
            let off = (d - (mx - mn)) * p / 200;
            let off_k = (k * d - ((k * mx + (k - 1)) - k * mn)) * p / 200;
            &&& k * max(mn - off, 0) - (k - 1) <= max(k * mn - off_k, 0)
            &&& max(k * mn - off_k, 0) <= k * max(mn - off, 0) + (k - 1)
            &&& k * min(mx + off, d) <= min(k * mx + (k - 1) + off_k, k * d)
            &&& min(k * mx + (k - 1) + off_k, k * d) <= k * min(mx + off, d) + 2 * (k - 1)
        }),
{
    let m = d - (mx - mn);
    let off = m * p / 200;
    let off_k = (k * d - ((k * mx + (k - 1)) - k * mn)) * p / 200;
    assert(k * d - ((k * mx + (k - 1)) - k * mn) == k * m - (k - 1)) by (nonlinear_arith)
        requires m == d - (mx - mn),
    ;
    lemma_offset_scales(m, p, k);
    assert(k * off - (k - 1) <= off_k <= k * off + (k - 1));
    assert(m * p >= 0) by (nonlinear_arith)
        requires 1 <= m, 0 <= p,
    ;
    lemma_div_is_ordered(0, m * p, 200);
    assert(0 <= off);

    // The minimum side: max(.., 0) moves by at most the offset wiggle.
    assert(k * mn - k * off == k * (mn - off)) by (nonlinear_arith);
    if mn >= off {
        assert(max(mn - off, 0) == mn - off);
        assert(k * (mn - off) >= 0) by (nonlinear_arith)
            requires mn - off >= 0, 1 <= k,
        ;
        assert(max(k * mn - off_k, 0) <= k * (mn - off) + (k - 1));
        assert(max(k * mn - off_k, 0) >= k * mn - off_k >= k * (mn - off) - (k - 1));
        assert(k * max(mn - off, 0) == k * (mn - off)) by (nonlinear_arith)
            requires max(mn - off, 0) == mn - off,
        ;
    } else {
        assert(max(mn - off, 0) == 0);
        assert(k * (mn - off) <= -k) by (nonlinear_arith)
            requires mn - off <= -1, 1 <= k,
        ;
        assert(k * mn - off_k <= k * (mn - off) + (k - 1) <= -1);
        assert(max(k * mn - off_k, 0) == 0);
        assert(k * max(mn - off, 0) == 0) by (nonlinear_arith)
            requires max(mn - off, 0) == 0,
        ;
    }

    // The maximum side: min(.., d) moves by at most the offset wiggle
    // plus the k - 1 the scaled maximum itself gained.
    assert(k * mx + k * off == k * (mx + off)) by (nonlinear_arith);
    assert(k * mx + (k - 1) + off_k >= k * (mx + off));
    assert(k * mx + (k - 1) + off_k <= k * (mx + off) + 2 * (k - 1));
    if mx + off <= d {
        assert(min(mx + off, d) == mx + off);
        assert(k * (mx + off) <= k * d) by (nonlinear_arith)
            requires mx + off <= d, 1 <= k,
        ;
        assert(min(k * mx + (k - 1) + off_k, k * d) >= min(k * (mx + off), k * d));
        assert(min(k * (mx + off), k * d) == k * (mx + off));
        assert(min(k * mx + (k - 1) + off_k, k * d) <= k * (mx + off) + 2 * (k - 1));
        assert(k * min(mx + off, d) == k * (mx + off)) by (nonlinear_arith)
            requires min(mx + off, d) == mx + off,
        ;
    } else {
        assert(min(mx + off, d) == d);
        assert(k * (mx + off) >= k * d) by (nonlinear_arith)
            requires mx + off >= d, 1 <= k,
        ;
        assert(min(k * mx + (k - 1) + off_k, k * d) == k * d) by {
            assert(k * mx + (k - 1) + off_k >= k * (mx + off) >= k * d);
        }
        assert(k * min(mx + off, d) == k * d) by (nonlinear_arith)
            requires min(mx + off, d) == d,
        ;
    }
}

/// Scaling the union box and the image by the same integer factor `k`
/// (minima to `k` times, maxima to `k` times plus `k - 1`, as pixel
/// replication does) scales the expanded region by `k` within rounding:
/// each minimum lands within `k - 1` of `k` times its unscaled value,
/// each maximum within `2 * (k - 1)` above it.
pub proof fn lemma_expanded_region_scales(mnx: int, mny: int, mxx: int, mxy: int, w: int, h: int, p: int, k: int, b: BoundingBox, bk: BoundingBox)
    requires
        0 <= mnx <= mxx < w,
        0 <= mny <= mxy < h,
        0 <= p <= 200,
        1 <= k,
        k * w <= u32::MAX,
        k * h <= u32::MAX,
        expanded_region(mnx, mny, mxx, mxy, w, h, p) == Some(b),
        expanded_region(k * mnx, k * mny, k * mxx + (k - 1), k * mxy + (k - 1),
            k * w, k * h, p) == Some(bk),
    ensures
        k * b.min_x - (k - 1) <= bk.min_x <= k * b.min_x + (k - 1),
        k * b.min_y - (k - 1) <= bk.min_y <= k * b.min_y + (k - 1),
        k * b.max_x <= bk.max_x <= k * b.max_x + 2 * (k - 1),
        k * b.max_y <= bk.max_y <= k * b.max_y + 2 * (k - 1),
{
    assert(w <= k * w && h <= k * h) by (nonlinear_arith)
        requires 1 <= k, 0 < w, 0 < h,
    ;
    lemma_axis_scales(mnx, mxx, w, p, k);
    lemma_axis_scales(mny, mxy, h, p, k);
}
/// the region of the contours of the image's grayscale form, taken at
/// the Otsu threshold of that form.
pub open spec fn contour_detection(img: RasterImage, percent: u32, r: Option<BoundingBox>) -> bool {
    region_of_contours(
        contour_points(img.width as int, img.height as int, luma_seq(img), otsu_threshold(luma_seq(img))),
        img.width as int,
        img.height as int,
        percent as int,
        r,
    )
}

/// Detects the content region from the extents of all contours found
/// at an adaptive threshold.
pub struct ContourRegionDetector;

impl ContourRegionDetector {
    /// Converts the page to grayscale, binarizes it at the Otsu level,
    /// unions all contour extents and widens the union by
    /// `margin_percent` of the remaining whitespace. `None` — the page
    /// carries no usable region and is to be dropped — exactly when
    /// there is no contour point at all, or the widened union is
    /// degenerate: content confined to a single row or column with no
    /// margin left to add.
    pub fn detect(img: &RasterImage, margin_percent: u32) -> (r: Option<BoundingBox>)
        requires
            img.wf(),
            fits_contour_analysis(img.width, img.height),
        ensures
            contour_detection(*img, margin_percent, r),
    {
        let gray = luma_pixels(img);
        proof {
            assert forall|k: int| 0 <= k < gray@.len()
                implies gray@[k] == luma_seq(*img)[k] by {
                let p = img.pixels@[k];
                assert(0 <= 2126 * p.r + 7152 * p.g + 722 * p.b <= 2550000);
                assert(spec_luma(p) <= 255) by (nonlinear_arith)
                    requires 0 <= 2126 * p.r + 7152 * p.g + 722 * p.b <= 2550000,
                ;
            }
            assert(gray@ =~= luma_seq(*img));
        }
        let thr = otsu_level_of(img.width, img.height, &gray);
        let cont = find_contour_points(img.width, img.height, &gray, thr);
        proof {
            let css = views_of(cont@);
            assert forall|a: int, b: int| valid_index(css, a, b)
                implies (#[trigger] css[a][b]).0 < img.width
                    && css[a][b].1 < img.height by {
                assert(css[a][b] == cont@[a]@[b]);
            }
        }
        region_from_points(&cont, img.width, img.height, margin_percent)
    }
}

} // verus!
