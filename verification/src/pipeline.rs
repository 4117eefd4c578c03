//! The per-page pipeline: one configured detection strategy is applied
//! to each rendered page, the detected region is widened to keep some
//! margin, and the page is cropped to it. A page whose region is absent
//! or whose crop would be empty is skipped — meant to be omitted from
//! the output document — and never stops the run. Pages are independent
//! of one another and their outcomes keep the input order.

use vstd::prelude::*;
use crate::contour::{
    contour_detection, fits_contour_analysis, ContourRegionDetector, lemma_region_some_ordered,
};
use crate::edge_scan::{is_edge_box, lemma_edge_box_ordered, EdgeScanDetector};
use crate::raster::{clamped_len, crop, is_crop_of, RasterImage};
use crate::region::{lemma_expand_widens, spec_expand, BoundingBox, MarginExpander};

verus! {

/// Which of the two detection strategies a run uses; chosen once per
/// run, not per page.
#[derive(Clone, Copy, Debug, PartialEq, Eq, Structural)]
pub enum DetectorKind {
    /// Scan inward from the four edges against a fixed gray threshold.
    EdgeScan,
    /// Union the extents of all contours found at an Otsu threshold.
    ContourRegion,
}

/// The immutable per-run configuration, constructed once and passed by
/// reference into every detector and pipeline call. Toggles that only
/// concern where cropped pages are persisted stay with the caller that
/// does the writing.
#[derive(Clone, Copy, Debug, PartialEq, Eq, Structural)]
pub struct CropConfig {
    /// Gray intensity below which an opaque pixel counts as content
    /// on the edge-scan path.
    pub gray_threshold: u8,
    /// How many percent of the detected whitespace to keep as margin.
    /// Not clamped at input; values above one hundred only saturate.
    pub margin_percent: u32,
    /// The detection strategy of this run.
    pub detector: DetectorKind,
}

/// The outcome of one page: its cropped image together with the final
/// region, or a skip. A skipped page is omitted from the output
/// document entirely, not replaced with a blank page.
#[derive(Debug, PartialEq, Eq)]
pub enum PageResult {
    /// The page was cropped to `region`; `image` is the cut-out.
    Cropped { image: RasterImage, region: BoundingBox },
    /// The page had no usable content region and is to be dropped.
    Skipped,
}

/// `b` is the box the edge-scan path hands to the crop: the detected
/// edge box widened by the configured margin.
pub open spec fn is_final_edge_box(img: RasterImage, cfg: CropConfig, b: BoundingBox) -> bool {
    exists|eb: BoundingBox| #[trigger] is_edge_box(img, cfg.gray_threshold, eb)
        && b == spec_expand(eb, cfg.margin_percent)
}

/// `r` is the final region the configured detector yields for `img`,
/// `None` standing for a dropped page. The edge-scan path always yields
/// a box; the contour path yields none exactly on a contour-free page.
pub open spec fn is_detected_region(img: RasterImage, cfg: CropConfig, r: Option<BoundingBox>) -> bool {
    match cfg.detector {
        DetectorKind::EdgeScan => match r {
            Some(b) => is_final_edge_box(img, cfg, b),
            None => false,
        },
        DetectorKind::ContourRegion => contour_detection(img, cfg.margin_percent, r),
    }
}

/// How a page outcome relates to the page it came from: a cropped page
/// carries its detected region and the non-empty crop to that region;
/// a skipped page either had no region at all or a crop with a zero
/// dimension.
pub open spec fn page_outcome(img: RasterImage, cfg: CropConfig, r: PageResult) -> bool {
    match r {
        PageResult::Cropped { image, region } => {
            &&& is_detected_region(img, cfg, Some(region))
            &&& is_crop_of(image, img, region.min_x, region.min_y,
                    (region.max_x - region.min_x) as u32, (region.max_y - region.min_y) as u32)
            &&& image.width > 0
            &&& image.height > 0
        },
        PageResult::Skipped => {
            ||| is_detected_region(img, cfg, None)
            ||| exists|b: BoundingBox| {
                &&& #[trigger] is_detected_region(img, cfg, Some(b))
                &&& (clamped_len(b.min_x, (b.max_x - b.min_x) as u32, img.width) == 0
                    || clamped_len(b.min_y, (b.max_y - b.min_y) as u32, img.height) == 0)
            }
        },
    }
}

/// Runs the configured detector over rendered pages and crops each one;
/// rasterizing pages and writing the output document stay with the
/// caller.
pub struct PageCropPipeline;

impl PageCropPipeline {
    /// Crops one rendered page: detect the content region, widen it by
    /// the configured margin, cut it out. `Skipped` when the region is
    /// absent or the cut-out would have a zero dimension. The contour
    /// strategy's outside arithmetic handles pages only up to the
    /// `fits_contour_analysis` bound, so such a run admits only those.
    pub fn process_page(img: RasterImage, config: &CropConfig) -> (r: PageResult)
        requires
            img.wf(),
            config.detector is ContourRegion ==> fits_contour_analysis(img.width, img.height),
        ensures
            page_outcome(img, *config, r),
    {
        let region_opt: Option<BoundingBox> = match config.detector {
            DetectorKind::EdgeScan => {
                let eb = EdgeScanDetector::detect(&img, config.gray_threshold);
                let b = MarginExpander::expand(eb, config.margin_percent);
                proof {
                    lemma_edge_box_ordered(img, config.gray_threshold, eb);
                    lemma_expand_widens(eb, config.margin_percent);
                    assert(is_final_edge_box(img, *config, b));
                }
                Some(b)
            },
            DetectorKind::ContourRegion => ContourRegionDetector::detect(&img, config.margin_percent),
        };
        match region_opt {
            None => {
                proof {
                    assert(is_detected_region(img, *config, None));
                }
                PageResult::Skipped
            },
            Some(b) => {
                proof {
                    assert(is_detected_region(img, *config, Some(b)));
                }
                proof {
                    if config.detector is ContourRegion {
                        lemma_region_some_ordered(
                            crate::contour::contour_points(
                                img.width as int,
                                img.height as int,
                                crate::contour::luma_seq(img),
                                crate::contour::otsu_threshold(crate::contour::luma_seq(img)),
                            ),
                            img.width as int,
                            img.height as int,
                            config.margin_percent as int,
                            b,
                        );
                    }
                    assert(b.min_x <= b.max_x && b.min_y <= b.max_y);
                }
                let cropped = crop(&img, b.min_x, b.min_y, b.max_x - b.min_x, b.max_y - b.min_y);
                if cropped.width == 0 || cropped.height == 0 {
                    proof {
                        assert(clamped_len(b.min_x, (b.max_x - b.min_x) as u32, img.width) == 0
                            || clamped_len(b.min_y, (b.max_y - b.min_y) as u32, img.height) == 0);
                        assert(page_outcome(img, *config, PageResult::Skipped));
                    }
                    PageResult::Skipped
                } else {
                    proof {
                        assert(page_outcome(img, *config,
                            PageResult::Cropped { image: cropped, region: b }));
                    }
                    PageResult::Cropped { image: cropped, region: b }
                }
            },
        }
    }

    /// Crops every page of a run, one outcome per page, in order. Pages
    /// share no state: each outcome depends on its own page alone.
    pub fn process_pages(pages: Vec<RasterImage>, config: &CropConfig) -> (r: Vec<PageResult>)
        requires
            forall|i: int| 0 <= i < pages@.len() ==> (#[trigger] pages@[i]).wf(),
            config.detector is ContourRegion ==> forall|i: int| 0 <= i < pages@.len()
                ==> fits_contour_analysis(
                    (#[trigger] pages@[i]).width,
                    pages@[i].height,
                ),
        ensures
            r@.len() == pages@.len(),
            forall|i: int| 0 <= i < r@.len()
                ==> page_outcome(pages@[i], *config, #[trigger] r@[i]),
    {
        let ghost orig = pages@;
        let mut rest = pages;
        let mut out: Vec<PageResult> = Vec::new();
        while rest.len() > 0
            invariant
                out@.len() + rest@.len() == orig.len(),
                rest@ == orig.skip(out@.len() as int),
                forall|i: int| 0 <= i < orig.len() ==> (#[trigger] orig[i]).wf(),
                config.detector is ContourRegion ==> forall|i: int| 0 <= i < orig.len()
                    ==> fits_contour_analysis((#[trigger] orig[i]).width, orig[i].height),
                forall|i: int| 0 <= i < out@.len()
                    ==> page_outcome(orig[i], *config, #[trigger] out@[i]),
            decreases rest@.len(),
        {
            let ghost k = out@.len() as int;
            let img = rest.remove(0);
            proof {
                assert(img == orig[k]);
                assert(rest@ =~= orig.skip(k + 1));
            }
            let pr = Self::process_page(img, config);
            out.push(pr);
        }
        proof {
            assert(out@.len() == orig.len());
        }
        out
    }
}

} // verus!
