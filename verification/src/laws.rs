use vstd::prelude::*;
use crate::searcher::{lists, is_local_max, candidate, is_reported, spaced, stands_out, allows};
use crate::distance::{survives_distance, near, outranks};
use crate::prominence::{
    left_edge, right_edge, left_base, right_base, base_index, prominence, lemma_left_edge,
    lemma_right_edge, lemma_lowest, lemma_bases,
};

verus! {

/// Two increasing lists of exactly the indices below `n` of which `pred`
/// holds are the same list: a result stated by `lists` is unique.
pub proof fn law_lists_unique(s1: Seq<usize>, s2: Seq<usize>, n: int, pred: spec_fn(int) -> bool)
    requires
        lists(s1, n, pred),
        lists(s2, n, pred),
    ensures
        s1 == s2,
{
    lemma_common_prefix(s1, s2, n, pred, if s1.len() < s2.len() { s1.len() as int } else { s2.len() as int });
    if s1.len() < s2.len() {
        let k = s1.len() as int;
        assert(pred(s2[k] as int));
        assert(s1.contains(s2[k]));
        let a = choose|a: int| 0 <= a < s1.len() && s1[a] == s2[k];
        assert(s2[a] == s1[a]);
        assert(s2[a] < s2[k]);
    } else if s2.len() < s1.len() {
        let k = s2.len() as int;
        assert(pred(s1[k] as int));
        assert(s2.contains(s1[k]));
        let a = choose|a: int| 0 <= a < s2.len() && s2[a] == s1[k];
        assert(s1[a] == s2[a]);
        assert(s1[a] < s1[k]);
    }
    assert(s1 =~= s2);
}

proof fn lemma_common_prefix(s1: Seq<usize>, s2: Seq<usize>, n: int, pred: spec_fn(int) -> bool, k: int)
    requires
        lists(s1, n, pred),
        lists(s2, n, pred),
        0 <= k <= s1.len(),
        k <= s2.len(),
    ensures
        forall|j: int| 0 <= j < k ==> s1[j] == s2[j],
    decreases k,
{
    if k > 0 {
        lemma_common_prefix(s1, s2, n, pred, k - 1);
        let j = k - 1;
        assert(pred(s1[j] as int));
        assert(pred(s2[j] as int));
        assert(s2.contains(s1[j]));
        assert(s1.contains(s2[j]));
        let a = choose|a: int| 0 <= a < s2.len() && s2[a] == s1[j];
        let b = choose|b: int| 0 <= b < s1.len() && s1[b] == s2[j];
        if a < j {
            assert(s1[a] == s2[a]);
            assert(s1[a] < s1[j]);
        }
        if b < j {
            assert(s2[b] == s1[b]);
            assert(s2[b] < s2[j]);
        }
        if a > j {
            assert(s2[j] < s2[a]);
        }
        if b > j {
            assert(s1[j] < s1[b]);
        }
    }
}

/// With no filter (or a distance of zero and no other filter) the peaks
/// found are exactly the local maxima.
pub proof fn law_unfiltered_peaks_are_local_maxima(x: Seq<i64>, distance: Option<usize>, found: Seq<usize>, maxima: Seq<usize>)
    requires
        distance is None || distance == Some(0usize),
        lists(found, x.len() as int, |i: int| is_reported(x, None, None, distance, None, None, i)),
        lists(maxima, x.len() as int, |i: int| is_local_max(x, i)),
    ensures
        found == maxima,
{
    let p1 = |i: int| is_reported(x, None, None, distance, None, None, i);
    let p2 = |i: int| is_local_max(x, i);
    assert(p1 =~= p2);
    law_lists_unique(found, maxima, x.len() as int, p2);
}

/// Two peaks that both survive the distance filter lie more than `dist`
/// samples apart.
pub proof fn law_survivors_are_apart(x: Seq<i64>, cand: spec_fn(int) -> bool, dist: int, p: int, q: int)
    requires
        0 <= p,
        0 <= q,
        p != q,
        cand(p),
        cand(q),
        survives_distance(x, cand, dist, p),
        survives_distance(x, cand, dist, q),
    ensures
        q < p - dist || q > p + dist,
{
    if !(q < p - dist || q > p + dist) {
        assert(near(p, q, dist));
        assert(near(q, p, dist));
        if outranks(x, q, p) {
            assert(!survives_distance(x, cand, dist, p));
        } else {
            assert(outranks(x, p, q));
            assert(!survives_distance(x, cand, dist, q));
        }
    }
}

/// A candidate removed by the distance filter lies within `dist` samples of
/// a surviving candidate that is higher, or equally high and further left.
pub proof fn law_removed_peak_is_dominated(x: Seq<i64>, cand: spec_fn(int) -> bool, dist: int, p: int)
    requires
        !survives_distance(x, cand, dist, p),
    ensures
        exists|q: int| 0 <= q && cand(q) && near(p, q, dist) && outranks(x, q, p)
            && survives_distance(x, cand, dist, q),
{
}

/// The candidate that takes precedence over every other candidate always
/// survives the distance filter.
pub proof fn law_top_candidate_survives(x: Seq<i64>, cand: spec_fn(int) -> bool, dist: int, p: int)
    requires
        cand(p),
        forall|q: int| cand(q) && q != p ==> #[trigger] outranks(x, p, q),
    ensures
        survives_distance(x, cand, dist, p),
{
    assert forall|q: int| 0 <= q && cand(q) && near(p, q, dist) implies !outranks(x, q, p) by {
        assert(outranks(x, p, q));
    }
}

/// When a positive distance is given, any two peaks reported lie more than
/// that distance apart.
pub proof fn law_reported_peaks_are_apart(
    x: Seq<i64>,
    height: Option<i64>,
    threshold: Option<&[bool]>,
    d: usize,
    prominence: Option<&[bool]>,
    width: Option<&[bool]>,
    p: int,
    q: int,
)
    requires
        d > 0,
        p != q,
        is_reported(x, height, threshold, Some(d), prominence, width, p),
        is_reported(x, height, threshold, Some(d), prominence, width, q),
    ensures
        q < p - d || q > p + d,
{
    let cand = |i: int| candidate(x, height, threshold, i);
    assert(spaced(x, cand, Some(d), p));
    assert(spaced(x, cand, Some(d), q));
    law_survivors_are_apart(x, cand, d as int, p, q);
}

/// Every peak reported is a local maximum of the signal.
pub proof fn law_reported_peaks_are_local_maxima(
    x: Seq<i64>,
    height: Option<i64>,
    threshold: Option<&[bool]>,
    distance: Option<usize>,
    prominence: Option<&[bool]>,
    width: Option<&[bool]>,
    i: int,
)
    requires
        is_reported(x, height, threshold, distance, prominence, width, i),
    ensures
        is_local_max(x, i),
        0 <= i < x.len(),
{
}

/// The base of a peak, as documented: on each side the lowest point between
/// the peak and the nearest sample higher than the peak (or the edge of the
/// signal); the base is the higher of the two, and the prominence is the
/// height of the peak above it.
pub proof fn law_prominence_base_is_lowest_point_before_higher_sample(x: Seq<i64>, p: int)
    requires
        0 <= p < x.len(),
    ensures
        ({
            let le = left_edge(x, x[p], p);
            let re = right_edge(x, x[p], p);
            let l = left_base(x, p);
            let r = right_base(x, p);
            &&& le == 0 || x[le - 1] > x[p]
            &&& forall|k: int| le <= k <= p ==> #[trigger] x[k] <= x[p]
            &&& re == x.len() - 1 || x[re + 1] > x[p]
            &&& forall|k: int| p <= k <= re ==> #[trigger] x[k] <= x[p]
            &&& le <= l <= p && forall|k: int| le <= k <= p ==> x[l] <= #[trigger] x[k]
            &&& p <= r <= re && forall|k: int| p <= k <= re ==> x[r] <= #[trigger] x[k]
            &&& prominence(x, p) == x[p] - if x[l] > x[r] { x[l] } else { x[r] }
        }),
{
    let le = left_edge(x, x[p], p);
    let re = right_edge(x, x[p], p);
    lemma_left_edge(x, x[p], p);
    lemma_right_edge(x, x[p], p);
    lemma_lowest(x, le, p);
    lemma_lowest(x, p, re);
}

/// A prominence is never negative, and never more than the height of the
/// peak above the lowest sample of the signal.
pub proof fn law_prominence_bounds(x: Seq<i64>, p: int, low: int)
    requires
        0 <= p < x.len(),
        0 <= low < x.len(),
        forall|i: int| 0 <= i < x.len() ==> x[low] <= #[trigger] x[i],
    ensures
        0 <= prominence(x, p) <= x[p] - x[low],
{
    lemma_bases(x, p);
    assert(x[low] <= x[base_index(x, p)]);
}

/// An interior local maximum has a positive prominence; the last sample of
/// the signal, taken as a peak, has prominence zero.
pub proof fn law_prominence_of_local_maxima(x: Seq<i64>, p: int)
    requires
        is_local_max(x, p),
    ensures
        p + 1 < x.len() ==> prominence(x, p) > 0,
        p == x.len() - 1 ==> prominence(x, p) == 0,
{
    lemma_bases(x, p);
    let le = left_edge(x, x[p], p);
    let re = right_edge(x, x[p], p);
    lemma_left_edge(x, x[p], p);
    lemma_right_edge(x, x[p], p);
    lemma_lowest(x, le, p);
    lemma_lowest(x, p, re);
    assert(le <= p - 1);
    assert(x[left_base(x, p)] <= x[p - 1]);
    if p + 1 < x.len() {
        assert(re >= p + 1);
        assert(x[right_base(x, p)] <= x[p + 1]);
    } else {
        assert(re == p);
        assert(right_base(x, p) == p);
    }
}

/// Whether a peak survives the distance filter depends only on the
/// candidates at least as high as it: two sets of candidates that agree on
/// those give the same answer.
pub proof fn law_survival_depends_on_higher_candidates(
    x: Seq<i64>,
    c1: spec_fn(int) -> bool,
    c2: spec_fn(int) -> bool,
    dist: int,
    p: int,
)
    requires
        forall|q: int| x[q] >= x[p] ==> #[trigger] c1(q) == c2(q),
    ensures
        survives_distance(x, c1, dist, p) == survives_distance(x, c2, dist, p),
    decreases i64::MAX - x[p], p,
{
    assert forall|q: int| 0 <= q && near(p, q, dist) && outranks(x, q, p) implies
        #[trigger] survives_distance(x, c1, dist, q) == survives_distance(x, c2, dist, q) by {
        assert forall|r: int| x[r] >= x[q] implies #[trigger] c1(r) == c2(r) by {
            assert(x[r] >= x[p]);
        }
        law_survival_depends_on_higher_candidates(x, c1, c2, dist, q);
    }
    if survives_distance(x, c1, dist, p) {
        assert forall|q: int| 0 <= q && c2(q) && near(p, q, dist) && outranks(x, q, p) implies
            !survives_distance(x, c2, dist, q) by {
            assert(x[q] >= x[p]);
            assert(c1(q) == c2(q));
            assert(survives_distance(x, c1, dist, q) == survives_distance(x, c2, dist, q));
        }
    } else {
        let q = choose|q: int| 0 <= q && c1(q) && near(p, q, dist) && outranks(x, q, p)
            && survives_distance(x, c1, dist, q);
        assert(x[q] >= x[p]);
        assert(c1(q) == c2(q));
        assert(survives_distance(x, c1, dist, q) == survives_distance(x, c2, dist, q));
    }
}

/// Raising the minimum height only removes peaks: a peak reported with a
/// minimum height is reported with any lower one, the other filters alike.
pub proof fn law_higher_minimum_height_reports_fewer_peaks(
    x: Seq<i64>,
    low: i64,
    high: i64,
    threshold: Option<&[bool]>,
    distance: Option<usize>,
    prominence: Option<&[bool]>,
    width: Option<&[bool]>,
    p: int,
)
    requires
        low <= high,
        is_reported(x, Some(high), threshold, distance, prominence, width, p),
    ensures
        is_reported(x, Some(low), threshold, distance, prominence, width, p),
{
    let c_high = |q: int| candidate(x, Some(high), threshold, q);
    let c_low = |q: int| candidate(x, Some(low), threshold, q);
    assert forall|q: int| x[q] >= x[p] implies #[trigger] c_low(q) == c_high(q) by {}
    if let Some(d) = distance {
        if d > 0 {
            law_survival_depends_on_higher_candidates(x, c_low, c_high, d as int, p);
        }
    }
}

/// Every local maximum of an integer signal rises at least one above its
/// neighbours, so a threshold of one or less lets every local maximum pass.
pub proof fn law_small_threshold_keeps_local_maxima(x: Seq<i64>, th: int, i: int)
    requires
        th <= 1,
        is_local_max(x, i),
    ensures
        stands_out(x, th, i),
{
}

/// With the prominence mask of `min` (as `prominence_mask` builds it), the
/// prominence filter keeps exactly the peaks whose prominence is at least
/// `min`, in their order.
pub proof fn law_prominence_filter_keeps_prominent_peaks(
    x: Seq<i64>,
    height: Option<i64>,
    threshold: Option<&[bool]>,
    distance: Option<usize>,
    mask: &[bool],
    min: i64,
    i: int,
)
    requires
        mask@.len() == x.len(),
        forall|j: int| 0 <= j < x.len() ==> #[trigger] mask@[j] == (is_local_max(x, j)
            && prominence(x, j) >= min),
    ensures
        is_reported(x, height, threshold, distance, Some(mask), None, i) == (is_reported(
            x,
            height,
            threshold,
            distance,
            None,
            None,
            i,
        ) && prominence(x, i) >= min),
{
    if is_local_max(x, i) {
        assert(0 <= i < x.len());
    }
}

/// The threshold mask compares a sample with both direct neighbours: an
/// interior sample passes exactly when it rises at least `th` above the one
/// before it and above the one after it; the last sample passes exactly when
/// it rises at least `th` above the one before it; the first sample of a
/// longer signal never passes.
pub proof fn law_threshold_mask_compares_both_neighbours(x: Seq<i64>, th: i64, mask: Seq<bool>)
    requires
        mask.len() == x.len(),
        forall|i: int| 0 <= i < x.len() ==> #[trigger] mask[i] == stands_out(x, th as int, i),
    ensures
        forall|i: int| 0 < i && i + 1 < x.len() ==> (#[trigger] mask[i] <==> (x[i] - x[i - 1] >= th
            && x[i] - x[i + 1] >= th)),
        x.len() >= 2 ==> (mask[x.len() - 1] <==> x[x.len() - 1] - x[x.len() - 2] >= th),
        x.len() >= 1 ==> !mask[0],
{
}

/// A sample is a peak candidate for the distance filter: a local maximum
/// (strictly above both neighbours, or the last sample strictly above the
/// one before it) that reaches the height and passes the threshold mask,
/// when these are given.
pub open spec fn passes_height_and_threshold(
    x: Seq<i64>,
    height: Option<i64>,
    threshold: Option<&[bool]>,
    p: int,
) -> bool {
    &&& ((1 <= p && p + 1 < x.len() && x[p] > x[p - 1] && x[p] > x[p + 1]) || (x.len() >= 2 && p
        == x.len() - 1 && x[p] > x[p - 1]))
    &&& match height {
        Some(h) => x[p] >= h,
        None => true,
    }
    &&& match threshold {
        Some(t) => p < t@.len() && t@[p],
        None => true,
    }
}

/// The distance filter decides among the peaks that pass the height and the
/// threshold, and among those alone: with a positive distance `d` (and no
/// prominence or width mask), a sample is reported exactly when it is such a
/// peak and no reported such peak that is higher, or equally high and to its
/// left, lies within `d` samples of it. So a sample that is not a peak, or a
/// peak that fails the height or the threshold, never removes another peak.
pub proof fn law_distance_decides_among_passing_peaks(
    x: Seq<i64>,
    height: Option<i64>,
    threshold: Option<&[bool]>,
    d: usize,
    r: Seq<usize>,
)
    requires
        d > 0,
        x.len() <= usize::MAX,
        lists(r, x.len() as int, |i: int| is_reported(x, height, threshold, Some(d), None, None, i)),
    ensures
        forall|p: int|
            0 <= p < x.len() ==> (#[trigger] r.contains(p as usize) <==> (passes_height_and_threshold(
                x,
                height,
                threshold,
                p,
            ) && !exists|q: int|
                #![trigger r.contains(q as usize)]
                0 <= q < x.len() && q != p && p - d <= q <= p + d && (x[q] > x[p] || (x[q] == x[p]
                    && q < p)) && passes_height_and_threshold(x, height, threshold, q)
                    && r.contains(q as usize))),
{
    let rep = |i: int| is_reported(x, height, threshold, Some(d), None, None, i);
    let cand = |q: int| candidate(x, height, threshold, q);
    assert forall|q: int| 0 <= q < x.len() implies (#[trigger] r.contains(q as usize) <==> rep(q)) by {
        if r.contains(q as usize) {
            let k = choose|k: int| 0 <= k < r.len() && r[k] == q as usize;
            assert(rep(r[k] as int));
        }
        if rep(q) {
            assert(rep((q as usize) as int));
            assert(r.contains(q as usize));
        }
    }
    assert forall|q: int| #[trigger] cand(q) == passes_height_and_threshold(x, height, threshold, q) by {}
    assert forall|p: int|
        0 <= p < x.len() implies (#[trigger] r.contains(p as usize) <==> (passes_height_and_threshold(
            x,
            height,
            threshold,
            p,
        ) && !exists|q: int|
            #![trigger r.contains(q as usize)]
            0 <= q < x.len() && q != p && p - d <= q <= p + d && (x[q] > x[p] || (x[q] == x[p] && q
                < p)) && passes_height_and_threshold(x, height, threshold, q) && r.contains(
                q as usize,
            ))) by {
        let near_kept = exists|q: int|
            #![trigger r.contains(q as usize)]
            0 <= q < x.len() && q != p && p - d <= q <= p + d && (x[q] > x[p] || (x[q] == x[p] && q
                < p)) && passes_height_and_threshold(x, height, threshold, q) && r.contains(
                q as usize,
            );
        let blocked = exists|q: int|
            #![trigger cand(q)]
            0 <= q && cand(q) && near(p, q, d as int) && outranks(x, q, p) && survives_distance(
                x,
                cand,
                d as int,
                q,
            );
        assert(rep(p) == (cand(p) && survives_distance(x, cand, d as int, p)));
        assert(survives_distance(x, cand, d as int, p) == !blocked);
        if near_kept {
            let q = choose|q: int|
                #![trigger r.contains(q as usize)]
                0 <= q < x.len() && q != p && p - d <= q <= p + d && (x[q] > x[p] || (x[q] == x[p]
                    && q < p)) && passes_height_and_threshold(x, height, threshold, q) && r.contains(
                    q as usize,
                );
            assert(rep(q));
            assert(cand(q));
            assert(blocked);
        }
        if blocked {
            let q = choose|q: int|
                #![trigger cand(q)]
                0 <= q && cand(q) && near(p, q, d as int) && outranks(x, q, p) && survives_distance(
                    x,
                    cand,
                    d as int,
                    q,
                );
            assert(is_local_max(x, q));
            assert(rep(q));
            assert(r.contains(q as usize));
            assert(near_kept);
        }
    }
}

/// The prominence and width masks act last, on the peaks that the earlier
/// filters leave: a sample is reported with the masks exactly when it is
/// reported without them and every given mask covers it and holds `true`
/// there; this holds for the last sample of the signal as for any other.
pub proof fn law_prominence_and_width_masks_filter_last(
    x: Seq<i64>,
    height: Option<i64>,
    threshold: Option<&[bool]>,
    distance: Option<usize>,
    prominence: Option<&[bool]>,
    width: Option<&[bool]>,
    unmasked: Seq<usize>,
    masked: Seq<usize>,
)
    requires
        x.len() <= usize::MAX,
        lists(unmasked, x.len() as int, |i: int| is_reported(x, height, threshold, distance, None, None, i)),
        lists(masked, x.len() as int, |i: int| is_reported(x, height, threshold, distance, prominence, width, i)),
    ensures
        forall|p: int|
            0 <= p < x.len() ==> (#[trigger] masked.contains(p as usize) <==> (unmasked.contains(
                p as usize,
            ) && match prominence {
                Some(m) => p < m@.len() && m@[p],
                None => true,
            } && match width {
                Some(w) => p < w@.len() && w@[p],
                None => true,
            })),
{
    let a = |i: int| is_reported(x, height, threshold, distance, None, None, i);
    let b = |i: int| is_reported(x, height, threshold, distance, prominence, width, i);
    assert forall|p: int|
        0 <= p < x.len() implies (#[trigger] masked.contains(p as usize) <==> (unmasked.contains(
            p as usize,
        ) && match prominence {
            Some(m) => p < m@.len() && m@[p],
            None => true,
        } && match width {
            Some(w) => p < w@.len() && w@[p],
            None => true,
        })) by {
        if masked.contains(p as usize) {
            let k = choose|k: int| 0 <= k < masked.len() && masked[k] == p as usize;
            assert(b(masked[k] as int));
        }
        if unmasked.contains(p as usize) {
            let k = choose|k: int| 0 <= k < unmasked.len() && unmasked[k] == p as usize;
            assert(a(unmasked[k] as int));
        }
        assert(b(p) == (a(p) && allows(prominence, p) && allows(width, p)));
        if b(p) {
            assert(b((p as usize) as int));
            assert(masked.contains(p as usize));
        }
        if a(p) {
            assert(a((p as usize) as int));
            assert(unmasked.contains(p as usize));
        }
    }
}

/// The local maxima are the interior samples strictly above both
/// neighbours, and the last sample when it is strictly above the one before
/// it: a plateau or a falling last sample is no peak.
pub proof fn law_local_maxima_are_strict(x: Seq<i64>, r: Seq<usize>)
    requires
        x.len() <= usize::MAX,
        lists(r, x.len() as int, |i: int| is_local_max(x, i)),
    ensures
        forall|p: int|
            0 <= p < x.len() ==> (#[trigger] r.contains(p as usize) <==> ((0 < p && p + 1 < x.len()
                && x[p] > x[p - 1] && x[p] > x[p + 1]) || (p > 0 && p == x.len() - 1 && x[p] > x[p - 1]))),
{
    let lm = |i: int| is_local_max(x, i);
    assert forall|p: int| 0 <= p < x.len() implies (#[trigger] r.contains(p as usize) <==> ((0 < p && p + 1 < x.len()
        && x[p] > x[p - 1] && x[p] > x[p + 1]) || (p > 0 && p == x.len() - 1 && x[p] > x[p - 1]))) by {
        if r.contains(p as usize) {
            let k = choose|k: int| 0 <= k < r.len() && r[k] == p as usize;
            assert(lm(r[k] as int));
        }
        if lm(p) {
            assert(lm((p as usize) as int));
            assert(r.contains(p as usize));
        }
    }
}

} // verus!
