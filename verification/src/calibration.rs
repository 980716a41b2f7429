//! Confidence calibration by crop size.
//!
//! The model reads 224×224 images: crops that are too small lose detail on
//! up-scaling, very large ones on down-scaling, and extreme aspect ratios
//! are squished.  Each case multiplies the raw confidence by a factor, given
//! here in percent; the first band whose exclusive upper bound the value
//! stays under applies.
use vstd::prelude::*;

verus! {

/// Factor, in percent, for a crop of `area` pixels:
/// under 2 500 (about 50×50): 30; under 10 000 (about 100×100): 60;
/// under 500 000 (speech-bubble crops): 100; under 2 000 000: 90; else 70.
pub open spec fn area_factor(area: int) -> int {
    if area < 2_500 {
        30
    } else if area < 10_000 {
        60
    } else if area < 500_000 {
        100
    } else if area < 2_000_000 {
        90
    } else {
        70
    }
}

/// Factor, in percent, for a crop whose longer side is `long` and whose
/// shorter side is `short` (taken as at least 1): ratio under 2: 100;
/// under 4: 95; under 8: 85; else 70.  The ratio is compared exactly; a
/// quotient computed in `f32` agrees with it for sides below 2^22 pixels.
pub open spec fn aspect_factor(long: int, short: int) -> int {
    let s = if short < 1 { 1 } else { short };
    if long < 2 * s {
        100
    } else if long < 4 * s {
        95
    } else if long < 8 * s {
        85
    } else {
        70
    }
}

/// The calibration of a crop: the factor for its area and the factor for
/// its aspect ratio, both in percent.  The confidence is multiplied by
/// both.
pub struct Calibration {
    pub area_percent: u32,
    pub aspect_percent: u32,
}

pub open spec fn max_int(a: int, b: int) -> int {
    if a >= b { a } else { b }
}

pub open spec fn min_int(a: int, b: int) -> int {
    if a <= b { a } else { b }
}

/// The calibration of a `width` × `height` crop.
pub open spec fn calibration_of(width: int, height: int) -> (int, int) {
    (area_factor(width * height), aspect_factor(max_int(width, height), min_int(width, height)))
}

/// The calibration factors for a `width` × `height` crop.
pub fn dimension_calibration(width: u32, height: u32) -> (c: Calibration)
    ensures
        (c.area_percent as int, c.aspect_percent as int) == calibration_of(width as int, height as int),
{
    assert((width as int) * (height as int) <= 0xffff_ffff * 0xffff_ffff) by (nonlinear_arith)
        requires
            width <= 0xffff_ffff,
            height <= 0xffff_ffff,
    ;
    let area: u64 = (width as u64) * (height as u64);
    let area_percent: u32 = if area < 2_500 {
        30
    } else if area < 10_000 {
        60
    } else if area < 500_000 {
        100
    } else if area < 2_000_000 {
        90
    } else {
        70
    };
    let long: u64 = if width >= height { width as u64 } else { height as u64 };
    let shorter: u64 = if width <= height { width as u64 } else { height as u64 };
    let short: u64 = if shorter < 1 { 1 } else { shorter };
    let aspect_percent: u32 = if long < 2 * short {
        100
    } else if long < 4 * short {
        95
    } else if long < 8 * short {
        85
    } else {
        70
    };
    Calibration { area_percent, aspect_percent }
}

/// Calibration never raises the confidence and never drops it below 21%
/// of its raw value: each factor lies between 30 and 100, or 70 and 100.
pub proof fn lemma_calibration_bounds(width: int, height: int)
    ensures
        30 <= calibration_of(width, height).0 <= 100,
        70 <= calibration_of(width, height).1 <= 100,
{
}

/// Calibration depends on the crop's size only, not on its orientation:
/// a tall crop and the same crop turned on its side get the same factors.
pub proof fn lemma_calibration_symmetric(width: int, height: int)
    ensures
        calibration_of(width, height) == calibration_of(height, width),
{
    assert(width * height == height * width) by (nonlinear_arith);
}

/// The area penalty eases as crops grow towards the sweet spot and comes
/// back, growing, for crops larger than it: the factor never falls as the
/// area grows below 500 000 pixels, and never rises as it grows from 10 000.
pub proof fn lemma_area_penalty_shape(a: int, b: int)
    ensures
        a <= b < 500_000 ==> area_factor(a) <= area_factor(b),
        10_000 <= a <= b ==> area_factor(a) >= area_factor(b),
        area_factor(a) == 100 <==> 10_000 <= a < 500_000,
{
}

/// The more a crop is stretched, the larger its penalty: for a given
/// shorter side, a longer side never gives a higher aspect factor; a square
/// crop gets none.
pub proof fn lemma_aspect_penalty_grows_with_stretch(long1: int, long2: int, short: int)
    ensures
        long1 <= long2 ==> aspect_factor(long1, short) >= aspect_factor(long2, short),
        short >= 1 ==> aspect_factor(short, short) == 100,
{
}

/// The bands at their edges, as the calibration tables set them: a 49×51
/// crop (2 499 pixels) gets 30%, 50×50 gets 60%, 100×100 gets 100%, a
/// 500 000-pixel crop 90% and a 2 000 000-pixel one 70%; a ratio just under
/// 2 keeps 100%, exactly 2 gives 95%, 4 gives 85% and 8 gives 70%.
pub proof fn lemma_calibration_band_edges()
    ensures
        calibration_of(49, 51).0 == 30,
        calibration_of(50, 50).0 == 60,
        calibration_of(99, 101).0 == 60,
        calibration_of(100, 100).0 == 100,
        calibration_of(1000, 499).0 == 100,
        calibration_of(1000, 500).0 == 90,
        calibration_of(2000, 999).0 == 90,
        calibration_of(2000, 1000).0 == 70,
        calibration_of(199, 100).1 == 100,
        calibration_of(200, 100).1 == 95,
        calibration_of(100, 399).1 == 95,
        calibration_of(100, 400).1 == 85,
        calibration_of(799, 100).1 == 85,
        calibration_of(800, 100).1 == 70,
        calibration_of(0, 1).1 == 100,
        calibration_of(0, 2).1 == 95,
{
}

/// Crops in the sweet spot (area from 10 000 up to 500 000 pixels, longer
/// side under twice the shorter one) get no penalty at all.
pub proof fn lemma_sweet_spot_no_penalty(width: int, height: int)
    requires
        10_000 <= width * height < 500_000,
        max_int(width, height) < 2 * min_int(width, height),
    ensures
        calibration_of(width, height) == (100int, 100int),
{
}

} // verus!
