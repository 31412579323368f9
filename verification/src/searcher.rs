use vstd::prelude::*;
use crate::error::SpikefitError;
use crate::distance::{member, select_by_distance, survives_distance};

verus! {

/// `s` is strictly increasing.
pub open spec fn increasing(s: Seq<usize>) -> bool {
    forall|a: int, b: int| 0 <= a < b < s.len() ==> s[a] < s[b]
}

/// `s` lists, in increasing order, exactly the indices below `n` of which
/// `pred` holds.
pub open spec fn lists(s: Seq<usize>, n: int, pred: spec_fn(int) -> bool) -> bool {
    &&& increasing(s)
    &&& forall|k: int| 0 <= k < s.len() ==> #[trigger] s[k] < n && pred(s[k] as int)
    &&& forall|u: usize| #![trigger s.contains(u)] u < n && pred(u as int) ==> s.contains(u)
}

/// Sample `i` of `x` is a peak candidate: it is an interior sample strictly
/// above both neighbours, or it is the last sample and strictly above the
/// one before it.
pub open spec fn is_local_max(x: Seq<i64>, i: int) -> bool {
    ||| (1 <= i && i + 1 < x.len() && x[i] > x[i - 1] && x[i] > x[i + 1])
    ||| (x.len() >= 2 && i == x.len() - 1 && x[i] > x[i - 1])
}

/// Indices of all local maxima of `x`, in increasing order.
pub fn local_maxima(x: &[i64]) -> (peaks: Vec<usize>)
    ensures
        lists(peaks@, x.len() as int, |i: int| is_local_max(x@, i)),
{
    let n = x.len();
    let mut peaks: Vec<usize> = Vec::new();
    let last: usize = if n >= 1 { n - 1 } else { 0 };
    let mut i: usize = 1;
    while i < last
        invariant
            1 <= i <= last + 1,
            n >= 2 ==> i <= last,
            last == if n >= 1 { n - 1 } else { 0 },
            n == x.len(),
            increasing(peaks@),
            forall|k: int| 0 <= k < peaks.len() ==> #[trigger] peaks@[k] < i && is_local_max(x@, peaks@[k] as int),
            forall|j: int| 0 <= j < i && j + 1 < n && is_local_max(x@, j) ==> peaks@.contains(j as usize),
        decreases last - i,
    {
        let ghost old_peaks = peaks@;
        if x[i] > x[i - 1] && x[i] > x[i + 1] {
            peaks.push(i);
            assert(peaks@[old_peaks.len() as int] == i);
        }
        assert forall|j: int| 0 <= j < i + 1 && j + 1 < n && is_local_max(x@, j) implies peaks@.contains(j as usize) by {
            if j < i {
                let k = choose|k: int| 0 <= k < old_peaks.len() && old_peaks[k] == j as usize;
                assert(peaks@[k] == j as usize);
            }
        }
        i = i + 1;
    }
    let ghost old_peaks = peaks@;
    if n >= 2 && x[n - 1] > x[n - 2] {
        peaks.push(n - 1);
        assert(peaks@[old_peaks.len() as int] == n - 1);
    }
    assert forall|j: int| 0 <= j < n && is_local_max(x@, j) implies peaks@.contains(j as usize) by {
        if j + 1 < n {
            let k = choose|k: int| 0 <= k < old_peaks.len() && old_peaks[k] == j as usize;
            assert(peaks@[k] == j as usize);
        }
    }
    peaks
}

/// Sample `i` rises at least `th` above its neighbours: above both for an
/// interior sample, above the one before it for the last sample. The first
/// sample of a longer signal never does, as it has no sample before it.
pub open spec fn stands_out(x: Seq<i64>, th: int, i: int) -> bool {
    if i == x.len() - 1 {
        i > 0 && x[i] - x[i - 1] >= th
    } else {
        0 < i < x.len() - 1 && x[i] - x[i - 1] >= th && x[i] - x[i + 1] >= th
    }
}

/// The threshold mask of an integer signal: for each sample, whether it
/// rises at least `th` above its neighbours (differences are taken exactly).
pub fn threshold_mask(x: &[i64], th: i64) -> (mask: Vec<bool>)
    ensures
        mask.len() == x.len(),
        forall|i: int| 0 <= i < x.len() ==> #[trigger] mask@[i] == stands_out(x@, th as int, i),
        forall|i: int| 0 < i && i + 1 < x.len() ==> (#[trigger] mask@[i] <==> (x@[i] - x@[i - 1] >= th
            && x@[i] - x@[i + 1] >= th)),
        x.len() >= 2 ==> (mask@[x.len() - 1] <==> x@[x.len() - 1] - x@[x.len() - 2] >= th),
{
    let n = x.len();
    let mut mask: Vec<bool> = Vec::new();
    let mut i: usize = 0;
    while i < n
        invariant
            n == x.len(),
            i <= n,
            mask.len() == i,
            forall|j: int| 0 <= j < i ==> #[trigger] mask@[j] == stands_out(x@, th as int, j),
        decreases n - i,
    {
        let t = th as i128;
        let ok = if i == n - 1 {
            i > 0 && x[i] as i128 - x[i - 1] as i128 >= t
        } else {
            0 < i && x[i] as i128 - x[i - 1] as i128 >= t && x[i] as i128 - x[i + 1] as i128 >= t
        };
        mask.push(ok);
        i = i + 1;
    }
    mask
}

/// A mask lets sample `i` through when it covers `i` and holds `true` there;
/// an absent mask lets every sample through.
pub open spec fn allows(mask: Option<&[bool]>, i: int) -> bool {
    match mask {
        Some(m) => 0 <= i < m@.len() && m@[i],
        None => true,
    }
}

/// Sample `i` reaches the height `height` when one is given.
pub open spec fn reaches(x: Seq<i64>, height: Option<i64>, i: int) -> bool {
    match height {
        Some(h) => x[i] >= h,
        None => true,
    }
}

/// The candidates that enter the distance filter: local maxima that reach
/// the height and pass the threshold mask.
pub open spec fn candidate(x: Seq<i64>, height: Option<i64>, threshold: Option<&[bool]>, i: int) -> bool {
    &&& is_local_max(x, i)
    &&& reaches(x, height, i)
    &&& allows(threshold, i)
}

/// Sample `i` survives the distance filter over the candidates `cand` when
/// a positive distance is given; otherwise every sample passes.
pub open spec fn spaced(x: Seq<i64>, cand: spec_fn(int) -> bool, distance: Option<usize>, i: int) -> bool {
    match distance {
        Some(d) => d == 0 || survives_distance(x, cand, d as int, i),
        None => true,
    }
}

/// Sample `i` is reported as a peak: it is a candidate, it survives the
/// distance filter when a positive distance is given, and it passes the
/// prominence and width masks.
pub open spec fn is_reported(
    x: Seq<i64>,
    height: Option<i64>,
    threshold: Option<&[bool]>,
    distance: Option<usize>,
    prominence: Option<&[bool]>,
    width: Option<&[bool]>,
    i: int,
) -> bool {
    &&& candidate(x, height, threshold, i)
    &&& spaced(x, |q: int| candidate(x, height, threshold, q), distance, i)
    &&& allows(prominence, i)
    &&& allows(width, i)
}

fn allows_exec(mask: Option<&[bool]>, i: usize) -> (r: bool)
    ensures
        r == allows(mask, i as int),
{
    match mask {
        Some(m) => i < m.len() && m[i],
        None => true,
    }
}

/// Keep the peaks that reach `height` (when given) and that `mask` lets
/// through (when given), in their order.
fn retain_peaks(
    x: &[i64],
    peaks: Vec<usize>,
    height: Option<i64>,
    mask: Option<&[bool]>,
    Ghost(pred): Ghost<spec_fn(int) -> bool>,
) -> (out: Vec<usize>)
    requires
        lists(peaks@, x.len() as int, pred),
    ensures
        lists(out@, x.len() as int, |i: int| pred(i) && reaches(x@, height, i) && allows(mask, i)),
{
    let ghost goal = |i: int| pred(i) && reaches(x@, height, i) && allows(mask, i);
    let mut out: Vec<usize> = Vec::new();
    let mut k: usize = 0;
    while k < peaks.len()
        invariant
            lists(peaks@, x.len() as int, pred),
            goal == (|i: int| pred(i) && reaches(x@, height, i) && allows(mask, i)),
            k <= peaks.len(),
            increasing(out@),
            forall|j: int| 0 <= j < out.len() ==> #[trigger] out@[j] < x.len() && goal(out@[j] as int),
            forall|j: int| 0 <= j < out.len() ==> #[trigger] out@[j] < peaks@[k as int] || k == peaks.len(),
            forall|j: int| 0 <= j < k && #[trigger] goal(peaks@[j] as int) ==> out@.contains(peaks@[j]),
        decreases peaks.len() - k,
    {
        let p = peaks[k];
        let high = match height {
            Some(h) => x[p] >= h,
            None => true,
        };
        let pass = high && allows_exec(mask, p);
        assert(high == reaches(x@, height, p as int));
        let ghost was = out@;
        assert(pred(peaks@[k as int] as int));
        assert(pass == goal(p as int));
        if pass {
            out.push(p);
            proof {
                assert(out@[was.len() as int] == p);
                assert forall|j: int| 0 <= j < k + 1 && #[trigger] goal(peaks@[j] as int) implies out@.contains(peaks@[j]) by {
                    if j < k {
                        let i = choose|i: int| 0 <= i < was.len() && was[i] == peaks@[j];
                        assert(out@[i] == peaks@[j]);
                    }
                }
            }
        }
        proof {
            if k + 1 < peaks.len() {
                assert(peaks@[k as int] < peaks@[k + 1]);
            }
        }
        k = k + 1;
    }
    proof {
        assert forall|i: int| 0 <= i < x.len() && #[trigger] goal(i) implies out@.contains(i as usize) by {
            assert(peaks@.contains(i as usize));
            let j = choose|j: int| 0 <= j < peaks.len() && peaks@[j] == i as usize;
            assert(goal(peaks@[j] as int));
        }
    }
    out
}

/// Find the peaks of a signal: its local maxima, filtered in turn by height,
/// by the threshold mask, by distance, by the prominence mask and by the
/// width mask, reported in increasing order.
///
/// A signal of fewer than three samples is refused. A mask decides for each
/// sample whether a peak there passes its filter; a filter that is absent
/// lets every peak pass, and so does a distance of zero.
pub fn find_peaks_impl(
    x: &[i64],
    height: Option<i64>,
    threshold: Option<&[bool]>,
    distance: Option<usize>,
    prominence: Option<&[bool]>,
    width: Option<&[bool]>,
) -> (res: Result<Vec<usize>, SpikefitError>)
    ensures
        res is Ok <==> x.len() >= 3,
        res matches Err(e) ==> e == (SpikefitError::SignalTooShort { len: 3 }),
        res matches Ok(peaks) ==> lists(
            peaks@,
            x.len() as int,
            |i: int| is_reported(x@, height, threshold, distance, prominence, width, i),
        ),
{
    if x.len() < 3 {
        return Err(SpikefitError::SignalTooShort { len: 3 });
    }
    let n = x.len();
    let local = local_maxima(x);
    let ghost lm = |i: int| is_local_max(x@, i);
    let ghost cand = |q: int| candidate(x@, height, threshold, q);
    let filtered = retain_peaks(x, local, height, threshold, Ghost(lm));
    proof {
        assert((|i: int| lm(i) && reaches(x@, height, i) && allows(threshold, i)) =~= cand);
        assert(lists(filtered@, n as int, cand));
    }
    let apart = match distance {
        Some(d) => {
            if d > 0 {
                let kept = select_by_distance(x, &filtered, d);
                proof {
                    assert(member(filtered@) =~= cand) by {
                        assert forall|q: int| #[trigger] member(filtered@)(q) == cand(q) by {
                            if cand(q) && 0 <= q < n {
                                assert(filtered@.contains(q as usize));
                            }
                            if member(filtered@)(q) {
                                let k = choose|k: int| 0 <= k < filtered.len() && filtered@[k] as int == q;
                                assert(cand(filtered@[k] as int));
                            }
                        }
                    }
                    assert((|i: int| member(filtered@)(i) && survives_distance(x@, member(filtered@), d as int, i))
                        =~= (|i: int| cand(i) && survives_distance(x@, cand, d as int, i)));
                }
                kept
            } else {
                filtered
            }
        },
        None => filtered,
    };
    let ghost spaced_pred = |i: int| cand(i) && spaced(x@, cand, distance, i);
    proof {
        assert(lists(apart@, n as int, spaced_pred));
    }
    let prominent = retain_peaks(x, apart, None, prominence, Ghost(spaced_pred));
    let ghost prom_pred = |i: int| spaced_pred(i) && reaches(x@, None, i) && allows(prominence, i);
    let wide = retain_peaks(x, prominent, None, width, Ghost(prom_pred));
    proof {
        let goal = |i: int| is_reported(x@, height, threshold, distance, prominence, width, i);
        let got = |i: int| prom_pred(i) && reaches(x@, None, i) && allows(width, i);
        assert(got =~= goal);
    }
    Ok(wide)
}

} // verus!
