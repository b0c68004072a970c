//! Configuration records for the analysis and export passes.  The file
//! that backs them is read outside the library.

use vstd::prelude::*;

verus! {

/// Thresholds of the strong-point extraction.
#[derive(Clone, Copy, PartialEq, Eq, Structural, Debug)]
pub struct StrongPointsConfig {
    pub min_domain: i32,
}

/// Sizes of the feature-export windows.
#[derive(Clone, Copy, PartialEq, Eq, Structural, Debug)]
pub struct ExportConfig {
    pub strong_point_length: usize,
    pub detail_view_len: usize,
    pub predict_candles_forward: usize,
}

} // verus!
