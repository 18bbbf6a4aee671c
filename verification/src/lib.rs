//! Largest-Triangle-Three-Buckets (LTTB) downsampling for time series.
//!
//! A series of `DataPoint`s (an epoch-second x coordinate and an exact
//! decimal y value) is reduced to at most `threshold` points, keeping the
//! points that preserve the visual shape of the series: the algorithm
//! partitions the interior into buckets and keeps, per bucket, the point
//! forming the largest triangle with the previous pick and the next
//! bucket's average.

use vstd::prelude::*;

mod dec;
mod point;
mod sample;

pub use dec::Dec;
pub use point::{DataOutput, DataPoint, DownsampleError};
pub use sample::{downsample, Lttb};

verus! {

} // verus!
