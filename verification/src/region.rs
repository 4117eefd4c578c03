//! Content bounding boxes and the margin-retention arithmetic of the
//! edge-scan path: the detected box is widened symmetrically by a share
//! of its distance to the top-left image corner, guarded so that the
//! coordinates can never underflow.

use vstd::prelude::*;

verus! {

/// Extent of a content region inside an image: `min_x`/`min_y` are the
/// first content column and row; `max_x`/`max_y` the last ones, except
/// that a side with no content defaults to the full image dimension.
#[derive(Clone, Copy, Debug, PartialEq, Eq, Structural)]
pub struct BoundingBox {
    pub min_x: u32,
    pub min_y: u32,
    pub max_x: u32,
    pub max_y: u32,
}

/// The margin the edge-scan path wants to put back on one axis:
/// `floor(coord * percent / 100)` of the box's distance to the
/// top-left corner.
pub open spec fn margin_add(coord: u32, percent: u32) -> int {
    (coord as int) * (percent as int) / 100
}

/// The margin actually applied: capped at the coordinate itself, so
/// that subtracting it stays at or above zero even for percentages
/// beyond one hundred.
pub open spec fn applied_add(coord: u32, percent: u32) -> int {
    vstd::math::min(margin_add(coord, percent), coord as int)
}

/// An integer squeezed back into the `u32` range from above.
pub open spec fn sat_u32(v: int) -> u32 {
    if v > u32::MAX {
        u32::MAX
    } else {
        v as u32
    }
}

/// The widened box: both minima move toward the origin by the applied
/// margin and both maxima move away from it by the same amount.
pub open spec fn spec_expand(b: BoundingBox, percent: u32) -> BoundingBox {
    let ax = applied_add(b.min_x, percent);
    let ay = applied_add(b.min_y, percent);
    BoundingBox {
        min_x: (b.min_x - ax) as u32,
        min_y: (b.min_y - ay) as u32,
        max_x: sat_u32(b.max_x + ax),
        max_y: sat_u32(b.max_y + ay),
    }
}

/// Widens a detected box so some of the scanned-away whitespace is kept.
pub struct MarginExpander;

impl MarginExpander {
    /// Expands `b` outward by `margin_percent` percent of its top/left
    /// margins, symmetrically on both sides of each axis; the subtracted
    /// amount is capped so the minima saturate at zero instead of
    /// underflowing.
    pub fn expand(b: BoundingBox, margin_percent: u32) -> (r: BoundingBox)
        ensures
            r == spec_expand(b, margin_percent),
    {
        proof {
            assert((b.min_x as int) * (margin_percent as int) < 0x1_0000_0000_0000_0000int)
                by (nonlinear_arith)
                requires b.min_x < 0x1_0000_0000, margin_percent < 0x1_0000_0000,
            ;
            assert((b.min_y as int) * (margin_percent as int) < 0x1_0000_0000_0000_0000int)
                by (nonlinear_arith)
                requires b.min_y < 0x1_0000_0000, margin_percent < 0x1_0000_0000,
            ;
        }
        let ax64: u64 = (b.min_x as u64) * (margin_percent as u64) / 100;
        let ay64: u64 = (b.min_y as u64) * (margin_percent as u64) / 100;
        let ax: u32 = if ax64 > b.min_x as u64 { b.min_x } else { ax64 as u32 };
        let ay: u32 = if ay64 > b.min_y as u64 { b.min_y } else { ay64 as u32 };
        let max_x64: u64 = b.max_x as u64 + ax as u64;
        let max_y64: u64 = b.max_y as u64 + ay as u64;
        BoundingBox {
            min_x: b.min_x - ax,
            min_y: b.min_y - ay,
            max_x: if max_x64 > u32::MAX as u64 { u32::MAX } else { max_x64 as u32 },
            max_y: if max_y64 > u32::MAX as u64 { u32::MAX } else { max_y64 as u32 },
        }
    }
}

/// Expansion only ever widens an ordered box: the minima move down, the
/// maxima move up, and the result stays ordered.
pub proof fn lemma_expand_widens(b: BoundingBox, percent: u32)
    requires
        b.min_x <= b.max_x,
        b.min_y <= b.max_y,
    ensures
        spec_expand(b, percent).min_x <= b.min_x,
        spec_expand(b, percent).min_y <= b.min_y,
        b.max_x <= spec_expand(b, percent).max_x,
        b.max_y <= spec_expand(b, percent).max_y,
        spec_expand(b, percent).min_x <= spec_expand(b, percent).max_x,
        spec_expand(b, percent).min_y <= spec_expand(b, percent).max_y,
{
    assert((b.min_x as int) * (percent as int) >= 0) by (nonlinear_arith);
    assert((b.min_y as int) * (percent as int) >= 0) by (nonlinear_arith);
}

/// Margin expansion with a percentage of zero is a no-op.
pub proof fn lemma_expand_zero_is_noop(b: BoundingBox)
    ensures
        spec_expand(b, 0) == b,
{
}

/// With a percentage of at most one hundred the guard never bites: the
/// full `floor(min * percent / 100)` margin is applied, and the new
/// minima are exactly the old ones less that margin, still at or above
/// zero — the subtraction cannot underflow.
pub proof fn lemma_expand_never_underflows(b: BoundingBox, percent: u32)
    requires
        percent <= 100,
    ensures
        margin_add(b.min_x, percent) <= b.min_x,
        margin_add(b.min_y, percent) <= b.min_y,
        spec_expand(b, percent).min_x == b.min_x - margin_add(b.min_x, percent),
        spec_expand(b, percent).min_y == b.min_y - margin_add(b.min_y, percent),
        spec_expand(b, percent).min_x >= 0,
        spec_expand(b, percent).min_y >= 0,
{
    assert((b.min_x as int) * (percent as int) / 100 <= b.min_x as int) by (nonlinear_arith)
        requires percent <= 100,
    ;
    assert((b.min_y as int) * (percent as int) / 100 <= b.min_y as int) by (nonlinear_arith)
        requires percent <= 100,
    ;
}

} // verus!
