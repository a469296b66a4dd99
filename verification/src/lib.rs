//! Closed lattice polylines that approximate a contour: candidate generation,
//! exhaustive enumeration, resampling, bounded retention and fingerprints.

pub mod cells;
pub mod fingerprint;
pub mod line;
pub mod neighbors;
pub mod point;
pub mod resample;
pub mod retain;
pub mod search;
pub mod select;
