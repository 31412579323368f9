//! Peak detection on sampled signals.
//!
//! The library works on signals whose samples are given as `i64` values.
//! Every rule that only compares samples (local maxima, the height filter,
//! the distance filter, the search for the bases of a peak and for the
//! crossings of a peak's flanks with a level) is stated and proved here. For
//! a signal of integers the samples are the values themselves; a signal of
//! another ordered kind (such as floating-point samples) is handed in as
//! order-preserving integer codes of its samples.
pub mod error;
pub mod options;
pub mod prominence;
pub mod searcher;
pub mod distance;
pub mod widths;
pub mod laws;

pub use error::SpikefitError;
pub use options::{PeakWidthsOptions, SpikefitWidths};
