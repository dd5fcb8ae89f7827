//! Flags, modes and status codes of the fitting entry points.

use vstd::prelude::*;

verus! {

/// Calculation flag: spend more effort for a better fit.
pub const CURVE_FIT_CALC_HIGH_QUALITY: u32 = 1 << 0;

/// Calculation flag: the points form a closed curve.
pub const CURVE_FIT_CALC_CYCLIC: u32 = 1 << 1;

/// Tracing mode for polygon extraction from raster images.
#[derive(Copy, Clone, Debug, PartialEq, Eq, Structural)]
pub enum TraceMode {
    /// Trace the outline (boundary) of shapes.
    Outline,
    /// Trace the centerline (skeleton) of shapes.
    Centerline,
}

/// True when `calc_flag` asks for a closed curve (bit 1 is set).
pub fn calc_flag_is_cyclic(calc_flag: u32) -> (b: bool)
    ensures
        b == ((calc_flag / 2) % 2 == 1),
{
    assert(CURVE_FIT_CALC_CYCLIC == 2) by (bit_vector);
    let b = (calc_flag & CURVE_FIT_CALC_CYCLIC) != 0;
    assert(((calc_flag & 2u32) != 0) == ((calc_flag / 2) % 2 == 1)) by (bit_vector);
    b
}

/// True when `calc_flag` asks for the high quality fit (bit 0 is set).
pub fn calc_flag_is_high_quality(calc_flag: u32) -> (b: bool)
    ensures
        b == (calc_flag % 2 == 1),
{
    assert(CURVE_FIT_CALC_HIGH_QUALITY == 1) by (bit_vector);
    let b = (calc_flag & CURVE_FIT_CALC_HIGH_QUALITY) != 0;
    assert(((calc_flag & 1u32) != 0) == (calc_flag % 2 == 1)) by (bit_vector);
    b
}

/// The fitting entry points need at least two points of at least two
/// dimensions; anything less is answered with the error status.
pub fn fit_input_valid(points_len: u32, dims: u32) -> (ok: bool)
    ensures
        ok == (points_len >= 2 && dims >= 2),
{
    points_len >= 2 && dims >= 2
}

/// Status of fitting a single segment: 0 when the error threshold was met,
/// 1 when it was not.
pub fn single_fit_status(threshold_met: bool) -> (status: i32)
    ensures
        status == (if threshold_met {
            0i32
        } else {
            1i32
        }),
{
    if threshold_met {
        0
    } else {
        1
    }
}

/// Status of an entry point whose input was refused.
pub fn input_error_status() -> (status: i32)
    ensures
        status == -1i32,
{
    -1
}

} // verus!
