use margin_crop::region::{BoundingBox, MarginExpander};

#[test]
fn expand_zero_percent_is_noop() {
    let b = BoundingBox { min_x: 2, min_y: 5, max_x: 9, max_y: 7 };
    assert_eq!(MarginExpander::expand(b, 0), b);
    let edge = BoundingBox { min_x: 0, min_y: 0, max_x: 0, max_y: 0 };
    assert_eq!(MarginExpander::expand(edge, 0), edge);
}

#[test]
fn expand_hundred_percent_never_underflows() {
    let b = BoundingBox { min_x: 3, min_y: 3, max_x: 3, max_y: 3 };
    let e = MarginExpander::expand(b, 100);
    assert_eq!(e, BoundingBox { min_x: 0, min_y: 0, max_x: 6, max_y: 6 });
    let b2 = BoundingBox { min_x: 0, min_y: 5, max_x: 10, max_y: 9 };
    let e2 = MarginExpander::expand(b2, 100);
    assert_eq!(e2, BoundingBox { min_x: 0, min_y: 0, max_x: 10, max_y: 14 });
}

#[test]
fn expand_truncates_the_added_margin() {
    let b = BoundingBox { min_x: 7, min_y: 9, max_x: 20, max_y: 30 };
    let e = MarginExpander::expand(b, 20);
    // floor(7 * 20 / 100) = 1 and floor(9 * 20 / 100) = 1.
    assert_eq!(e, BoundingBox { min_x: 6, min_y: 8, max_x: 21, max_y: 31 });
}

#[test]
fn expand_above_hundred_percent_saturates_at_zero() {
    let b = BoundingBox { min_x: 2, min_y: 3, max_x: 5, max_y: 6 };
    let e = MarginExpander::expand(b, 200);
    // The margins would be 4 and 6; they are capped at 2 and 3.
    assert_eq!(e, BoundingBox { min_x: 0, min_y: 0, max_x: 7, max_y: 9 });
}

#[test]
fn expand_saturates_at_the_coordinate_ceiling() {
    let b = BoundingBox {
        min_x: u32::MAX - 1,
        min_y: 0,
        max_x: u32::MAX,
        max_y: 1,
    };
    let e = MarginExpander::expand(b, 100);
    assert_eq!(e.min_x, 0);
    assert_eq!(e.max_x, u32::MAX);
    assert_eq!(e.min_y, 0);
    assert_eq!(e.max_y, 1);
}
