use vstd::prelude::*;

verus! {

/// The errors that peak detection reports.
#[derive(Debug, Clone, PartialEq, Eq)]
pub enum SpikefitError {
    /// The signal holds fewer samples than the operation needs; `len` is the
    /// number of samples that the operation reports as its need.
    SignalTooShort { len: usize },
    /// A peak index does not address a sample of the signal.
    PeakOutOfBounds { index: usize, len: usize },
    /// A parameter lies outside its domain.
    InvalidParameter { param: &'static str, detail: String },
}

} // verus!
