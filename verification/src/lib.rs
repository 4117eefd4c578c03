//! Trims whitespace margins from rasterized document pages.
//!
//! Given a page as a rectangular RGBA pixel buffer, the library finds the
//! bounding box of the page's content (by one of two detection strategies),
//! widens it so that a configurable share of the original margin is kept,
//! and crops the page to the widened box. A per-page pipeline turns a
//! sequence of rendered pages into a sequence of cropped-or-skipped
//! outcomes; rendering pages and assembling the output document are left
//! to the caller.

pub mod contour;
pub mod edge_scan;
pub mod pipeline;
pub mod raster;
pub mod region;
