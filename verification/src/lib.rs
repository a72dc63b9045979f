//! Dynamic time warping of multivariate series, and the bookkeeping of a
//! signature verification experiment built on it.
use vstd::prelude::*;

pub mod csv;
pub mod dtw;
pub mod results;
pub mod schedule;
pub mod server;
pub mod text;

verus! {

/// The sum of two integers, for callers on the other side of a foreign
/// function interface.
pub fn my_add(x: i32, y: i32) -> (r: i32)
    requires
        i32::MIN <= x + y <= i32::MAX,
    ensures
        r == x + y,
{
    x + y
}

} // verus!
