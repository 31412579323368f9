use vstd::prelude::*;

verus! {

/// `j` is where the left flank of peak `p` first reaches down to `level`:
/// the nearest sample left of `p` that lies at or below `level`.
pub open spec fn left_crossing(x: Seq<i64>, p: int, level: i64, j: int) -> bool {
    &&& 0 <= j < p
    &&& x[j] <= level
    &&& forall|i: int| j < i < p ==> #[trigger] x[i] > level
}

/// `j` is where the right flank of peak `p` first reaches down to `level`:
/// the nearest sample right of `p` that lies at or below `level`.
pub open spec fn right_crossing(x: Seq<i64>, p: int, level: i64, j: int) -> bool {
    &&& p < j < x.len()
    &&& x[j] <= level
    &&& forall|i: int| p < i < j ==> #[trigger] x[i] > level
}

/// The samples next to which the flanks of peak `p` cross `level`: the
/// nearest sample at or below `level` on each side of `p`, or `None` on a
/// side where every sample lies above `level`.
///
/// A width is measured between the two crossings, each placed by
/// interpolating between the sample found and its neighbour towards `p`.
pub fn width_crossings(x: &[i64], p: usize, level: i64) -> (res: (Option<usize>, Option<usize>))
    requires
        p < x.len(),
    ensures
        res.0 matches Some(j) ==> left_crossing(x@, p as int, level, j as int),
        res.0 is None ==> forall|i: int| 0 <= i < p ==> #[trigger] x@[i] > level,
        res.1 matches Some(j) ==> right_crossing(x@, p as int, level, j as int),
        res.1 is None ==> forall|i: int| p < i < x.len() ==> #[trigger] x@[i] > level,
{
    let mut left: Option<usize> = None;
    let mut j = p;
    while j > 0
        invariant_except_break
            left is None,
        invariant
            j <= p < x.len(),
            forall|i: int| j <= i < p ==> #[trigger] x@[i] > level,
        ensures
            left matches Some(l) ==> left_crossing(x@, p as int, level, l as int),
            left is None ==> forall|i: int| 0 <= i < p ==> #[trigger] x@[i] > level,
        decreases j,
    {
        if x[j - 1] <= level {
            left = Some(j - 1);
            break;
        }
        j = j - 1;
    }
    let mut right: Option<usize> = None;
    let mut k = p + 1;
    while k < x.len()
        invariant_except_break
            right is None,
        invariant
            p < k <= x.len(),
            forall|i: int| p < i < k ==> #[trigger] x@[i] > level,
        ensures
            right matches Some(r) ==> right_crossing(x@, p as int, level, r as int),
            right is None ==> forall|i: int| p < i < x.len() ==> #[trigger] x@[i] > level,
        decreases x.len() - k,
    {
        if x[k] <= level {
            right = Some(k);
            break;
        }
        k = k + 1;
    }
    (left, right)
}

} // verus!
