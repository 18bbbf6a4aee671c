//! The points the downsampler works on: an input point whose x
//! coordinate is a whole number of seconds since the Unix epoch (held as
//! an exact decimal so that all arithmetic stays in one numeric domain),
//! and an output point whose x coordinate has been converted back to
//! epoch seconds.

use vstd::prelude::*;
use crate::dec::{Dec, dec_valid};

verus! {

/// One point of a time series: `x` is the time coordinate, `y` the value.
#[derive(Debug, Clone, Copy, PartialEq, Eq, Structural)]
pub struct DataPoint {
    pub x: Dec,
    pub y: Dec,
}

/// A selected point handed back to the caller: `x` is in seconds since
/// the Unix epoch, `y` is the value unchanged.
#[derive(Debug, Clone, Copy, PartialEq, Eq, Structural)]
pub struct DataOutput {
    pub x: u64,
    pub y: Dec,
}

/// The errors the downsampler reports instead of faulting: a threshold
/// of 1 or 2 that asks for a reduction (its bucket arithmetic would
/// divide by zero), and decimal arithmetic leaving the 96-bit domain.
#[derive(Debug, Clone, Copy, PartialEq, Eq, Structural)]
pub enum DownsampleError {
    InvalidThreshold,
    ArithmeticOverflow,
}

/// An x coordinate as the constructor builds it: a whole (scale zero),
/// non-negative number of epoch seconds that fits a `u64`.
pub open spec fn epoch_x(d: Dec) -> bool {
    &&& d.scale == 0
    &&& 0 <= d.mantissa <= u64::MAX
}

/// A well-formed input point: its x coordinate is an epoch-second count
/// and its y value lies in the decimal domain.
pub open spec fn point_wf(p: DataPoint) -> bool {
    &&& epoch_x(p.x)
    &&& dec_valid(p.y)
}

/// Every point of the sequence is well formed.
pub open spec fn seq_wf(s: Seq<DataPoint>) -> bool {
    forall|i: int| 0 <= i < s.len() ==> point_wf(#[trigger] s[i])
}

/// The output projection of a point: x back to epoch seconds, y as it is.
pub open spec fn out_of(p: DataPoint) -> DataOutput {
    DataOutput { x: p.x.mantissa as u64, y: p.y }
}

impl DataPoint {
    /// Builds the point at `epoch_seconds` seconds after the Unix epoch
    /// with value `y`. The time coordinate is stored as an exact decimal
    /// so that the algorithm's arithmetic treats x and y alike.
    pub fn new(epoch_seconds: u64, y: Dec) -> (r: DataPoint)
        ensures
            r == (DataPoint { x: Dec { mantissa: epoch_seconds as i128, scale: 0u32 }, y }),
            epoch_x(r.x),
            dec_valid(y) ==> point_wf(r),
    {
        DataPoint { x: Dec { mantissa: epoch_seconds as i128, scale: 0 }, y }
    }
}

impl DataOutput {
    /// Converts a selected point back to the caller's time domain. The
    /// x coordinate must be a whole epoch-second count; the constructor
    /// establishes that, and the downsampler only copies points.
    pub fn from(p: DataPoint) -> (r: DataOutput)
        requires
            epoch_x(p.x),
        ensures
            r == out_of(p),
    {
        DataOutput { x: p.x.mantissa as u64, y: p.y }
    }
}

} // verus!
