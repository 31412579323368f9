use vstd::prelude::*;
use crate::error::SpikefitError;
use crate::searcher::is_local_max;

verus! {

/// The start of the stretch left of sample `i` that holds no sample higher
/// than `h`: the sample after the nearest one higher than `h`, or the start
/// of the signal.
pub open spec fn left_edge(x: Seq<i64>, h: i64, i: int) -> int
    decreases i,
{
    if 0 < i < x.len() && x[i - 1] <= h {
        left_edge(x, h, i - 1)
    } else {
        i
    }
}

/// The end of the stretch right of sample `i` that holds no sample higher
/// than `h`: the sample before the nearest one higher than `h`, or the end
/// of the signal.
pub open spec fn right_edge(x: Seq<i64>, h: i64, i: int) -> int
    decreases x.len() - i,
{
    if 0 <= i && i + 1 < x.len() && x[i + 1] <= h {
        right_edge(x, h, i + 1)
    } else {
        i
    }
}

/// The index of the lowest sample among `x[lo..=hi]` (the leftmost one among
/// equally low samples).
pub open spec fn lowest(x: Seq<i64>, lo: int, hi: int) -> int
    decreases hi - lo,
{
    if hi <= lo {
        lo
    } else {
        let j = lowest(x, lo, hi - 1);
        if x[hi] < x[j] {
            hi
        } else {
            j
        }
    }
}

/// The left base of peak `p`: the lowest point between the nearest sample
/// left of `p` that is higher than `p` (or the start of the signal) and `p`.
pub open spec fn left_base(x: Seq<i64>, p: int) -> int {
    lowest(x, left_edge(x, x[p], p), p)
}

/// The right base of peak `p`: the lowest point between `p` and the nearest
/// sample right of `p` that is higher than `p` (or the end of the signal).
pub open spec fn right_base(x: Seq<i64>, p: int) -> int {
    lowest(x, p, right_edge(x, x[p], p))
}

/// The base of peak `p`: the higher of its left and right bases (the right
/// one when both lie equally high).
pub open spec fn base_index(x: Seq<i64>, p: int) -> int {
    let l = left_base(x, p);
    let r = right_base(x, p);
    if x[l] > x[r] {
        l
    } else {
        r
    }
}

/// The prominence of peak `p`: how far it rises above its base.
pub open spec fn prominence(x: Seq<i64>, p: int) -> int {
    x[p] - x[base_index(x, p)]
}

/// Every index in `peaks` addresses a sample of a signal of `n` samples.
pub open spec fn all_in_bounds(peaks: Seq<usize>, n: int) -> bool {
    forall|k: int| 0 <= k < peaks.len() ==> #[trigger] peaks[k] < n
}

/// `peaks[k]` is the first index in `peaks` that does not address a sample.
pub open spec fn first_out_of_bounds(peaks: Seq<usize>, n: int, k: int) -> bool {
    &&& 0 <= k < peaks.len()
    &&& peaks[k] >= n
    &&& forall|j: int| 0 <= j < k ==> #[trigger] peaks[j] < n
}

/// The error that a computation over the peaks `peaks` of a signal of `n`
/// samples reports, if any: an empty signal, then the first peak index that
/// does not address a sample.
pub open spec fn peaks_error(peaks: Seq<usize>, n: int, e: SpikefitError) -> bool {
    if n == 0 {
        e == (SpikefitError::SignalTooShort { len: 0 })
    } else {
        exists|k: int|
            first_out_of_bounds(peaks, n, k) && e == (SpikefitError::PeakOutOfBounds {
                index: #[trigger] peaks[k],
                len: n as usize,
            })
    }
}

/// The stretch left of `i` up to `left_edge` holds no sample higher than
/// `h`, and is bounded by a higher sample or the start of the signal.
pub proof fn lemma_left_edge(x: Seq<i64>, h: i64, i: int)
    requires
        0 <= i < x.len(),
    ensures
        0 <= left_edge(x, h, i) <= i,
        left_edge(x, h, i) == 0 || x[left_edge(x, h, i) - 1] > h,
        forall|k: int| left_edge(x, h, i) <= k < i ==> #[trigger] x[k] <= h,
    decreases i,
{
    if 0 < i && x[i - 1] <= h {
        lemma_left_edge(x, h, i - 1);
    }
}

/// The stretch right of `i` up to `right_edge` holds no sample higher than
/// `h`, and is bounded by a higher sample or the end of the signal.
pub proof fn lemma_right_edge(x: Seq<i64>, h: i64, i: int)
    requires
        0 <= i < x.len(),
    ensures
        i <= right_edge(x, h, i) < x.len(),
        right_edge(x, h, i) == x.len() - 1 || x[right_edge(x, h, i) + 1] > h,
        forall|k: int| i < k <= right_edge(x, h, i) ==> #[trigger] x[k] <= h,
    decreases x.len() - i,
{
    if i + 1 < x.len() && x[i + 1] <= h {
        lemma_right_edge(x, h, i + 1);
    }
}

/// `lowest` picks a sample of the range that no sample of the range lies
/// below.
pub proof fn lemma_lowest(x: Seq<i64>, lo: int, hi: int)
    requires
        lo <= hi,
    ensures
        lo <= lowest(x, lo, hi) <= hi,
        forall|k: int| lo <= k <= hi ==> x[lowest(x, lo, hi)] <= #[trigger] x[k],
    decreases hi - lo,
{
    if lo < hi {
        lemma_lowest(x, lo, hi - 1);
    }
}

/// The bases of a peak lie in the stretches around it that hold no higher
/// sample, and are no higher than the peak.
pub proof fn lemma_bases(x: Seq<i64>, p: int)
    requires
        0 <= p < x.len(),
    ensures
        left_edge(x, x[p], p) <= left_base(x, p) <= p,
        p <= right_base(x, p) <= right_edge(x, x[p], p),
        x[left_base(x, p)] <= x[p],
        x[right_base(x, p)] <= x[p],
        0 <= base_index(x, p) < x.len(),
        0 <= prominence(x, p),
{
    lemma_left_edge(x, x[p], p);
    lemma_right_edge(x, x[p], p);
    lemma_lowest(x, left_edge(x, x[p], p), p);
    lemma_lowest(x, p, right_edge(x, x[p], p));
}

/// The start of the stretch left of `p` that holds no sample higher than
/// `p`.
fn left_edge_exec(x: &[i64], p: usize) -> (k: usize)
    requires
        p < x.len(),
    ensures
        k == left_edge(x@, x@[p as int], p as int),
{
    let h = x[p];
    let mut k = p;
    while k > 0 && x[k - 1] <= h
        invariant
            k <= p < x.len(),
            h == x@[p as int],
            left_edge(x@, h, k as int) == left_edge(x@, h, p as int),
        decreases k,
    {
        k = k - 1;
    }
    k
}

/// The end of the stretch right of `p` that holds no sample higher than `p`.
fn right_edge_exec(x: &[i64], p: usize) -> (k: usize)
    requires
        p < x.len(),
    ensures
        k == right_edge(x@, x@[p as int], p as int),
{
    let h = x[p];
    let mut k = p;
    while k + 1 < x.len() && x[k + 1] <= h
        invariant
            p <= k < x.len(),
            h == x@[p as int],
            right_edge(x@, h, k as int) == right_edge(x@, h, p as int),
        decreases x.len() - k,
    {
        k = k + 1;
    }
    k
}

/// The index of the lowest sample among `x[lo..=hi]`.
fn lowest_exec(x: &[i64], lo: usize, hi: usize) -> (k: usize)
    requires
        lo <= hi < x.len(),
    ensures
        k == lowest(x@, lo as int, hi as int),
{
    let mut best = lo;
    let mut i = lo;
    while i < hi
        invariant
            lo <= i <= hi < x.len(),
            best == lowest(x@, lo as int, i as int),
        decreases hi - i,
    {
        proof {
            lemma_lowest(x@, lo as int, i as int);
        }
        i = i + 1;
        if x[i] < x[best] {
            best = i;
        }
    }
    best
}

/// The base of peak `p`.
fn base_of(x: &[i64], p: usize) -> (b: usize)
    requires
        p < x.len(),
    ensures
        b == base_index(x@, p as int),
        b < x.len(),
{
    let le = left_edge_exec(x, p);
    let re = right_edge_exec(x, p);
    proof {
        lemma_left_edge(x@, x@[p as int], p as int);
        lemma_right_edge(x@, x@[p as int], p as int);
    }
    let l = lowest_exec(x, le, p);
    let r = lowest_exec(x, p, re);
    proof {
        lemma_bases(x@, p as int);
    }
    if x[l] > x[r] { l } else { r }
}

/// The base index of each peak.
///
/// On each side of a peak, the base is the lowest point between the peak
/// and the nearest sample higher than the peak (or the edge of the signal);
/// the base of the peak is the higher of the two. The prominence of the peak
/// is its height above that base.
pub fn prominence_bases(x: &[i64], peaks: &[usize]) -> (res: Result<Vec<usize>, SpikefitError>)
    ensures
        res is Ok <==> x.len() > 0 && all_in_bounds(peaks@, x.len() as int),
        res matches Ok(b) ==> b.len() == peaks.len() && forall|k: int|
            0 <= k < peaks.len() ==> #[trigger] b@[k] == base_index(x@, peaks@[k] as int),
        res matches Err(e) ==> peaks_error(peaks@, x.len() as int, e),
{
    if x.len() == 0 {
        return Err(SpikefitError::SignalTooShort { len: 0 });
    }
    let mut bases: Vec<usize> = Vec::new();
    let mut k: usize = 0;
    while k < peaks.len()
        invariant
            0 < x.len(),
            k <= peaks.len(),
            bases.len() == k,
            forall|j: int| 0 <= j < k ==> #[trigger] peaks@[j] < x.len(),
            forall|j: int| 0 <= j < k ==> #[trigger] bases@[j] == base_index(x@, peaks@[j] as int),
        decreases peaks.len() - k,
    {
        let p = peaks[k];
        if p >= x.len() {
            let e = SpikefitError::PeakOutOfBounds { index: p, len: x.len() };
            assert(first_out_of_bounds(peaks@, x.len() as int, k as int));
            return Err(e);
        }
        let b = base_of(x, p);
        bases.push(b);
        k = k + 1;
    }
    Ok(bases)
}

/// The prominence of each peak of an integer signal: how far the peak rises
/// above its base (see [`prominence_bases`]).
pub fn peak_prominences_impl(x: &[i64], peaks: &[usize]) -> (res: Result<Vec<u64>, SpikefitError>)
    ensures
        res is Ok <==> x.len() > 0 && all_in_bounds(peaks@, x.len() as int),
        res matches Ok(v) ==> v.len() == peaks.len() && forall|k: int|
            0 <= k < peaks.len() ==> #[trigger] v@[k] == prominence(x@, peaks@[k] as int),
        res matches Err(e) ==> peaks_error(peaks@, x.len() as int, e),
{
    let bases = match prominence_bases(x, peaks) {
        Ok(b) => b,
        Err(e) => return Err(e),
    };
    let mut proms: Vec<u64> = Vec::new();
    let mut k: usize = 0;
    while k < peaks.len()
        invariant
            bases.len() == peaks.len(),
            all_in_bounds(peaks@, x.len() as int),
            forall|j: int| 0 <= j < peaks.len() ==> #[trigger] bases@[j] == base_index(x@, peaks@[j] as int),
            k <= peaks.len(),
            proms.len() == k,
            forall|j: int| 0 <= j < k ==> #[trigger] proms@[j] == prominence(x@, peaks@[j] as int),
        decreases peaks.len() - k,
    {
        let p = peaks[k];
        let b = bases[k];
        proof {
            assert(peaks@[k as int] < x.len());
            lemma_bases(x@, p as int);
        }
        let d: i128 = x[p] as i128 - x[b] as i128;
        proms.push(d as u64);
        k = k + 1;
    }
    Ok(proms)
}

/// The prominence mask of an integer signal: for each sample, whether it is
/// a local maximum whose prominence is at least `min` (prominences are taken
/// exactly).
pub fn prominence_mask(x: &[i64], min: i64) -> (mask: Vec<bool>)
    ensures
        mask.len() == x.len(),
        forall|i: int| 0 <= i < x.len() ==> #[trigger] mask@[i] == (is_local_max(x@, i)
            && prominence(x@, i) >= min),
{
    let n = x.len();
    let mut mask: Vec<bool> = Vec::new();
    let mut i: usize = 0;
    while i < n
        invariant
            n == x.len(),
            i <= n,
            mask.len() == i,
            forall|j: int| 0 <= j < i ==> #[trigger] mask@[j] == (is_local_max(x@, j)
                && prominence(x@, j) >= min),
        decreases n - i,
    {
        let interior = 0 < i && i + 1 < n && x[i] > x[i - 1] && x[i] > x[i + 1];
        let last = n >= 2 && i == n - 1 && x[i] > x[i - 1];
        let ok = if interior || last {
            let b = base_of(x, i);
            proof {
                lemma_bases(x@, i as int);
            }
            x[i] as i128 - x[b] as i128 >= min as i128
        } else {
            false
        };
        mask.push(ok);
        i = i + 1;
    }
    mask
}

} // verus!
