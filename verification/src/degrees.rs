use vstd::prelude::*;

verus! {

/// The degree measure `d` brought into `[0, 360)`: the unique `r` in that range
/// with `d - r` a multiple of 360.
pub open spec fn sanitized_degrees(d: int) -> int {
    d % 360
}

/// Sanitizes a degree measure as an integer: returns a degree measure between
/// 0 (inclusive) and 360 (exclusive).
pub fn sanitize_degrees_int(degrees: i32) -> (r: u32)
    ensures
        r < 360,
        r as int == sanitized_degrees(degrees as int),
{
    let mut degrees: i32 = degrees % 360;
    if degrees < 0 {
        degrees = degrees + 360;
    }
    degrees as u32
}

} // verus!
