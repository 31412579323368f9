use vstd::prelude::*;
use crate::searcher::{is_local_max, lists, local_maxima};

verus! {

/// Builder for computing peak widths.
///
/// Holds the signal, optionally the indices of the peaks to measure (when
/// absent every local maximum is measured, see [`peaks_or_local_maxima`])
/// and optionally the relative height at which the widths are measured
/// (when absent one half of the prominence).
pub struct PeakWidthsOptions<'a, T> {
    pub x: &'a [T],
    pub peaks: Option<&'a [usize]>,
    pub rel_height: Option<T>,
}

impl<'a, T> PeakWidthsOptions<'a, T> {
    /// Create a builder for signal `x`, with no peaks and no relative height set.
    pub fn new(x: &'a [T]) -> (res: Self)
        ensures
            res.x@ == x@,
            res.peaks is None,
            res.rel_height is None,
    {
        PeakWidthsOptions { x, peaks: None, rel_height: None }
    }

    /// Override the peak indices to use.
    pub fn peaks(self, peaks: &'a [usize]) -> (res: Self)
        ensures
            res.x@ == self.x@,
            res.peaks matches Some(p) && p@ == peaks@,
            res.rel_height == self.rel_height,
    {
        PeakWidthsOptions { x: self.x, peaks: Some(peaks), rel_height: self.rel_height }
    }

    /// Set the relative height at which to measure widths.
    pub fn rel_height(self, rh: T) -> (res: Self)
        ensures
            res.x@ == self.x@,
            res.peaks == self.peaks,
            res.rel_height == Some(rh),
    {
        PeakWidthsOptions { x: self.x, peaks: self.peaks, rel_height: Some(rh) }
    }
}

/// The widths of peaks with the positions at which each peak's flanks cross
/// the level of measurement, one entry per peak in every field.
#[derive(Clone, Debug, Default)]
pub struct SpikefitWidths<T> {
    pub widths: Vec<T>,
    pub left_intersections: Vec<T>,
    pub right_intersections: Vec<T>,
}

/// The peaks to measure: the given ones, or when none are given every local
/// maximum of the signal, in increasing order.
pub fn peaks_or_local_maxima(x: &[i64], peaks: Option<&[usize]>) -> (res: Vec<usize>)
    ensures
        peaks matches Some(p) ==> res@ == p@,
        peaks is None ==> lists(res@, x.len() as int, |i: int| is_local_max(x@, i)),
{
    match peaks {
        Some(p) => {
            let mut v: Vec<usize> = Vec::new();
            let mut k: usize = 0;
            while k < p.len()
                invariant
                    k <= p.len(),
                    v@ == p@.subrange(0, k as int),
                decreases p.len() - k,
            {
                v.push(p[k]);
                k = k + 1;
            }
            assert(p@.subrange(0, p.len() as int) =~= p@);
            v
        },
        None => local_maxima(x),
    }
}

} // verus!
