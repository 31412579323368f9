use vstd::prelude::*;
use crate::prominence::all_in_bounds;
use crate::searcher::{increasing, lists};

verus! {

/// Peak `q` takes precedence over peak `p`: it is higher, or equally high
/// and further left.
pub open spec fn outranks(x: Seq<i64>, q: int, p: int) -> bool {
    x[q] > x[p] || (x[q] == x[p] && q < p)
}

/// `q` is another sample than `p` and at most `dist` samples away from it.
pub open spec fn near(p: int, q: int, dist: int) -> bool {
    p != q && p - dist <= q <= p + dist
}

/// The indices that `peaks` holds, as a predicate.
pub open spec fn member(peaks: Seq<usize>) -> spec_fn(int) -> bool {
    |q: int| exists|k: int| 0 <= k < peaks.len() && peaks[k] as int == q
}

/// Peak `p` survives the distance filter over the candidates `cand`: no
/// surviving candidate that takes precedence over `p` lies within `dist`
/// samples of it. Candidates are thus decided from the highest down, each
/// one kept unless a kept one nearby has already claimed its surroundings.
pub open spec fn survives_distance(x: Seq<i64>, cand: spec_fn(int) -> bool, dist: int, p: int) -> bool
    decreases i64::MAX - x[p], p,
{
    !exists|q: int|
        #![trigger cand(q)]
        0 <= q && cand(q) && near(p, q, dist) && outranks(x, q, p)
            && survives_distance(x, cand, dist, q)
}

fn outranks_exec(x: &[i64], q: usize, p: usize) -> (r: bool)
    requires
        q < x.len(),
        p < x.len(),
    ensures
        r == outranks(x@, q as int, p as int),
{
    x[q] > x[p] || (x[q] == x[p] && q < p)
}

/// The positions `s` into `peaks` are in decreasing precedence: each peak
/// takes precedence over every peak after it.
pub open spec fn by_precedence(x: Seq<i64>, peaks: Seq<usize>, s: Seq<usize>) -> bool {
    forall|i: int, j: int|
        0 <= i < j < s.len() ==> outranks(x, #[trigger] peaks[s[i] as int] as int, #[trigger] peaks[s[j] as int] as int)
}

/// Merge two lists of positions, each in decreasing precedence, into one.
fn merge_by_precedence(x: &[i64], peaks: &[usize], a: Vec<usize>, b: Vec<usize>) -> (r: Vec<usize>)
    requires
        all_in_bounds(peaks@, x.len() as int),
        forall|k: int| 0 <= k < a.len() ==> #[trigger] a@[k] < peaks.len(),
        forall|k: int| 0 <= k < b.len() ==> #[trigger] b@[k] < peaks.len(),
        by_precedence(x@, peaks@, a@),
        by_precedence(x@, peaks@, b@),
        forall|i: int, j: int| 0 <= i < a.len() && 0 <= j < b.len() ==>
            peaks@[#[trigger] a@[i] as int] != peaks@[#[trigger] b@[j] as int],
    ensures
        r.len() == a.len() + b.len(),
        by_precedence(x@, peaks@, r@),
        forall|k: int| 0 <= k < r.len() ==> a@.contains(#[trigger] r@[k]) || b@.contains(r@[k]),
        forall|k: int| 0 <= k < a.len() ==> r@.contains(#[trigger] a@[k]),
        forall|k: int| 0 <= k < b.len() ==> r@.contains(#[trigger] b@[k]),
{
    let mut r: Vec<usize> = Vec::new();
    let mut i: usize = 0;
    let mut j: usize = 0;
    while i < a.len() || j < b.len()
        invariant
            all_in_bounds(peaks@, x.len() as int),
            forall|k: int| 0 <= k < a.len() ==> #[trigger] a@[k] < peaks.len(),
            forall|k: int| 0 <= k < b.len() ==> #[trigger] b@[k] < peaks.len(),
            by_precedence(x@, peaks@, a@),
            by_precedence(x@, peaks@, b@),
            forall|i: int, j: int| 0 <= i < a.len() && 0 <= j < b.len() ==>
                peaks@[#[trigger] a@[i] as int] != peaks@[#[trigger] b@[j] as int],
            i <= a.len(),
            j <= b.len(),
            r.len() == i + j,
            by_precedence(x@, peaks@, r@),
            r.len() > 0 && i < a.len() ==> outranks(x@, peaks@[r@.last() as int] as int, peaks@[a@[i as int] as int] as int),
            r.len() > 0 && j < b.len() ==> outranks(x@, peaks@[r@.last() as int] as int, peaks@[b@[j as int] as int] as int),
            forall|k: int| 0 <= k < r.len() ==> a@.subrange(0, i as int).contains(#[trigger] r@[k]) || b@.subrange(0, j as int).contains(r@[k]),
            forall|k: int| 0 <= k < i ==> r@.contains(#[trigger] a@[k]),
            forall|k: int| 0 <= k < j ==> r@.contains(#[trigger] b@[k]),
        decreases a.len() + b.len() - i - j,
    {
        let ghost old_r = r@;
        let take_a = if i < a.len() && j < b.len() {
            outranks_exec(x, peaks[a[i]], peaks[b[j]])
        } else {
            i < a.len()
        };
        if take_a {
            r.push(a[i]);
            proof {
                assert forall|k: int| 0 <= k < r.len() implies a@.subrange(0, i + 1).contains(#[trigger] r@[k]) || b@.subrange(0, j as int).contains(r@[k]) by {
                    if k < old_r.len() {
                        assert(r@[k] == old_r[k]);
                        if a@.subrange(0, i as int).contains(old_r[k]) {
                            let w = choose|w: int| 0 <= w < i && a@.subrange(0, i as int)[w] == old_r[k];
                            assert(a@.subrange(0, i + 1)[w] == old_r[k]);
                        }
                    } else {
                        assert(a@.subrange(0, i + 1)[i as int] == a@[i as int]);
                    }
                }
                assert forall|k: int| 0 <= k < i + 1 implies r@.contains(#[trigger] a@[k]) by {
                    if k < i {
                        let w = choose|w: int| 0 <= w < old_r.len() && old_r[w] == a@[k];
                        assert(r@[w] == a@[k]);
                    } else {
                        assert(r@[old_r.len() as int] == a@[k]);
                    }
                }
                assert forall|k: int| 0 <= k < j implies r@.contains(#[trigger] b@[k]) by {
                    let w = choose|w: int| 0 <= w < old_r.len() && old_r[w] == b@[k];
                    assert(r@[w] == b@[k]);
                }
                assert forall|u: int, v: int| 0 <= u < v < r.len() implies outranks(x@, #[trigger] peaks@[r@[u] as int] as int, #[trigger] peaks@[r@[v] as int] as int) by {
                    if v == r.len() - 1 && u < v {
                        if u < old_r.len() - 1 {
                            assert(outranks(x@, peaks@[old_r[u] as int] as int, peaks@[old_r.last() as int] as int));
                        }
                    }
                }
                if i + 1 < a.len() {
                    assert(outranks(x@, peaks@[a@[i as int] as int] as int, peaks@[a@[i + 1] as int] as int));
                }
            }
            i = i + 1;
        } else {
            r.push(b[j]);
            proof {
                if i < a.len() {
                    assert(peaks@[a@[i as int] as int] != peaks@[b@[j as int] as int]);
                    assert(peaks@[a@[i as int] as int] != peaks@[b@[j as int] as int] ==> outranks(x@, peaks@[b@[j as int] as int] as int, peaks@[a@[i as int] as int] as int));
                }
                assert forall|k: int| 0 <= k < r.len() implies a@.subrange(0, i as int).contains(#[trigger] r@[k]) || b@.subrange(0, j + 1).contains(r@[k]) by {
                    if k < old_r.len() {
                        assert(r@[k] == old_r[k]);
                        if b@.subrange(0, j as int).contains(old_r[k]) {
                            let w = choose|w: int| 0 <= w < j && b@.subrange(0, j as int)[w] == old_r[k];
                            assert(b@.subrange(0, j + 1)[w] == old_r[k]);
                        }
                    } else {
                        assert(b@.subrange(0, j + 1)[j as int] == b@[j as int]);
                    }
                }
                assert forall|k: int| 0 <= k < j + 1 implies r@.contains(#[trigger] b@[k]) by {
                    if k < j {
                        let w = choose|w: int| 0 <= w < old_r.len() && old_r[w] == b@[k];
                        assert(r@[w] == b@[k]);
                    } else {
                        assert(r@[old_r.len() as int] == b@[k]);
                    }
                }
                assert forall|k: int| 0 <= k < i implies r@.contains(#[trigger] a@[k]) by {
                    let w = choose|w: int| 0 <= w < old_r.len() && old_r[w] == a@[k];
                    assert(r@[w] == a@[k]);
                }
                assert forall|u: int, v: int| 0 <= u < v < r.len() implies outranks(x@, #[trigger] peaks@[r@[u] as int] as int, #[trigger] peaks@[r@[v] as int] as int) by {
                    if v == r.len() - 1 && u < v {
                        if u < old_r.len() - 1 {
                            assert(outranks(x@, peaks@[old_r[u] as int] as int, peaks@[old_r.last() as int] as int));
                        }
                    }
                }
                if j + 1 < b.len() {
                    assert(outranks(x@, peaks@[b@[j as int] as int] as int, peaks@[b@[j + 1] as int] as int));
                }
            }
            j = j + 1;
        }
    }
    proof {
        assert(a@.subrange(0, a.len() as int) =~= a@);
        assert(b@.subrange(0, b.len() as int) =~= b@);
    }
    r
}

/// The positions `lo..hi` into `peaks`, in decreasing precedence of their
/// peaks.
fn order_by_precedence(x: &[i64], peaks: &[usize], lo: usize, hi: usize) -> (r: Vec<usize>)
    requires
        lo <= hi <= peaks.len(),
        increasing(peaks@),
        all_in_bounds(peaks@, x.len() as int),
    ensures
        r.len() == hi - lo,
        by_precedence(x@, peaks@, r@),
        forall|k: int| 0 <= k < r.len() ==> lo <= #[trigger] r@[k] < hi,
        forall|u: usize| lo <= u < hi ==> #[trigger] r@.contains(u),
    decreases hi - lo,
{
    if hi - lo == 0 {
        Vec::new()
    } else if hi - lo == 1 {
        let r = vec![lo];
        assert(r@[0] == lo);
        r
    } else {
        let mid = lo + (hi - lo) / 2;
        let left = order_by_precedence(x, peaks, lo, mid);
        let right = order_by_precedence(x, peaks, mid, hi);
        proof {
            assert forall|i: int, j: int| 0 <= i < left.len() && 0 <= j < right.len() implies
                peaks@[#[trigger] left@[i] as int] != peaks@[#[trigger] right@[j] as int] by {
                assert(left@[i] < right@[j]);
            }
        }
        let r = merge_by_precedence(x, peaks, left, right);
        proof {
            assert forall|k: int| 0 <= k < r.len() implies lo <= #[trigger] r@[k] < hi by {
                if left@.contains(r@[k]) {
                    let w = choose|w: int| 0 <= w < left.len() && left@[w] == r@[k];
                    assert(lo <= left@[w] < mid);
                } else {
                    let w = choose|w: int| 0 <= w < right.len() && right@[w] == r@[k];
                    assert(mid <= right@[w] < hi);
                }
            }
            assert forall|u: usize| lo <= u < hi implies #[trigger] r@.contains(u) by {
                if u < mid {
                    assert(left@.contains(u));
                    let w = choose|w: int| 0 <= w < left.len() && left@[w] == u;
                    assert(r@.contains(left@[w]));
                } else {
                    assert(right@.contains(u));
                    let w = choose|w: int| 0 <= w < right.len() && right@[w] == u;
                    assert(r@.contains(right@[w]));
                }
            }
        }
        r
    }
}

/// Mark every sample near `p` (within `dist` samples, `p` itself excepted)
/// as excluded.
fn exclude_around(excluded: &mut Vec<bool>, p: usize, dist: usize)
    requires
        p < old(excluded).len(),
    ensures
        final(excluded).len() == old(excluded).len(),
        forall|j: int| 0 <= j < old(excluded).len() ==> #[trigger] final(excluded)@[j] == (old(excluded)@[j]
            || near(p as int, j, dist as int)),
{
    let n = excluded.len();
    let start: usize = if p >= dist { p - dist } else { 0 };
    let end: usize = if dist < n - p { p + dist + 1 } else { n };
    let mut j = start;
    while j < end
        invariant
            excluded.len() == n,
            n == old(excluded).len(),
            p < n,
            start as int == if p >= dist { p - dist } else { 0 },
            end as int == if dist < n - p { p + dist + 1 } else { n as int },
            start <= j <= end || end < start,
            forall|i: int| 0 <= i < n ==> #[trigger] excluded@[i] == (old(excluded)@[i]
                || (start <= i < j && i != p)),
        decreases end - j,
    {
        if j != p {
            excluded.set(j, true);
        }
        j = j + 1;
    }
}

/// Keep, among the candidate peaks `peaks`, those that survive the distance
/// filter: taken from the highest down (equally high ones from the left),
/// each candidate is kept unless a kept one lies within `dist` samples of it.
/// The kept ones are returned in increasing order.
pub fn select_by_distance(x: &[i64], peaks: &[usize], dist: usize) -> (kept: Vec<usize>)
    requires
        increasing(peaks@),
        all_in_bounds(peaks@, x.len() as int),
    ensures
        lists(
            kept@,
            x.len() as int,
            |i: int| member(peaks@)(i) && survives_distance(x@, member(peaks@), dist as int, i),
        ),
{
    let m = peaks.len();
    let n = x.len();
    let mut done: Vec<bool> = vec![false; m];
    let mut keep: Vec<bool> = vec![false; m];
    let mut excluded: Vec<bool> = vec![false; n];
    assert(forall|a: int| 0 <= a < m ==> !done@[a]);
    assert(forall|a: int| 0 <= a < m ==> !keep@[a]);
    assert(forall|j: int| 0 <= j < n ==> !excluded@[j]);
    let order = order_by_precedence(x, peaks, 0, m);
    let mut t: usize = 0;
    while t < m
        invariant
            m == peaks.len(),
            n == x.len(),
            increasing(peaks@),
            all_in_bounds(peaks@, n as int),
            done.len() == m,
            keep.len() == m,
            excluded.len() == n,
            order.len() == m,
            by_precedence(x@, peaks@, order@),
            forall|k: int| 0 <= k < m ==> #[trigger] order@[k] < m,
            forall|u: usize| u < m ==> #[trigger] order@.contains(u),
            t <= m,
            forall|s: int| 0 <= s < t ==> #[trigger] done@[order@[s] as int],
            forall|b: int| 0 <= b < m && #[trigger] done@[b] ==> exists|s: int| 0 <= s < t && order@[s] == b,
            forall|a: int, b: int| 0 <= a < m && 0 <= b < m && #[trigger] done@[a] && !#[trigger] done@[b]
                ==> outranks(x@, peaks@[a] as int, peaks@[b] as int),
            forall|a: int| 0 <= a < m && #[trigger] keep@[a] ==> done@[a],
            forall|a: int| 0 <= a < m && #[trigger] done@[a] ==> (keep@[a] == survives_distance(x@, member(peaks@), dist as int, peaks@[a] as int)),
            forall|j: int| 0 <= j < n ==> (#[trigger] excluded@[j] == exists|b: int| 0 <= b < m && #[trigger] keep@[b] && near(peaks@[b] as int, j, dist as int)),
        decreases m - t,
    {
        // Decide the candidate of highest precedence among those not yet decided.
        let a = order[t];
        let p = peaks[a];
        proof {
            if done@[a as int] {
                let s = choose|s: int| 0 <= s < t && order@[s] == a;
                assert(outranks(x@, peaks@[order@[s] as int] as int, peaks@[order@[t as int] as int] as int));
            }
        }
        assert forall|b: int| 0 <= b < m && !done@[b] && b != a implies outranks(x@, p as int, peaks@[b] as int) by {
            assert(order@.contains(b as usize));
            let u = choose|u: int| 0 <= u < m && order@[u] == b as usize;
            if u < t {
                assert(done@[order@[u] as int]);
            } else if u == t {
            } else {
                assert(outranks(x@, peaks@[order@[t as int] as int] as int, peaks@[order@[u] as int] as int));
            }
        }
        let ghost was_keep = keep@;
        let ghost was_done = done@;
        let ghost was_excluded = excluded@;
        let free = !excluded[p];
        proof {
            // `p` is excluded exactly when a surviving candidate of higher rank lies near it.
            assert(free == survives_distance(x@, member(peaks@), dist as int, p as int)) by {
                if !free {
                    let b = choose|b: int| 0 <= b < m && #[trigger] keep@[b] && near(peaks@[b] as int, p as int, dist as int);
                    assert(done@[b]);
                    assert(member(peaks@)(peaks@[b] as int));
                }
                let c = member(peaks@);
                if exists|q: int| #![trigger c(q)] 0 <= q && c(q) && near(p as int, q, dist as int) && outranks(x@, q, p as int)
                    && survives_distance(x@, c, dist as int, q) {
                    let q = choose|q: int| #![trigger c(q)] 0 <= q && c(q) && near(p as int, q, dist as int) && outranks(x@, q, p as int)
                        && survives_distance(x@, c, dist as int, q);
                    let b = choose|b: int| 0 <= b < m && peaks@[b] as int == q;
                    if !done@[b] {
                        assert(b != a);
                        assert(outranks(x@, p as int, q as int));
                    }
                    assert(keep@[b]);
                    assert(near(peaks@[b] as int, p as int, dist as int));
                }
            }
        }
        if free {
            keep.set(a, true);
            exclude_around(&mut excluded, p, dist);
        }
        done.set(a, true);
        proof {
            assert forall|j: int| 0 <= j < n implies (#[trigger] excluded@[j] == exists|b: int| 0 <= b < m && #[trigger] keep@[b] && near(peaks@[b] as int, j, dist as int)) by {
                if excluded@[j] {
                    if was_excluded[j] {
                        let b = choose|b: int| 0 <= b < m && #[trigger] was_keep[b] && near(peaks@[b] as int, j, dist as int);
                        assert(keep@[b]);
                    } else {
                        assert(keep@[a as int]);
                    }
                }
                if exists|b: int| 0 <= b < m && #[trigger] keep@[b] && near(peaks@[b] as int, j, dist as int) {
                    let b = choose|b: int| 0 <= b < m && #[trigger] keep@[b] && near(peaks@[b] as int, j, dist as int);
                    if b != a {
                        assert(was_keep[b]);
                    }
                }
            }
            assert forall|b: int| 0 <= b < m && #[trigger] done@[b] implies exists|s: int| 0 <= s < t + 1 && order@[s] == b by {
                if b != a {
                    assert(was_done[b]);
                    let s = choose|s: int| 0 <= s < t && order@[s] == b;
                    assert(0 <= s < t + 1 && order@[s] == b);
                } else {
                    assert(order@[t as int] == b);
                }
            }
        }
        t = t + 1;
    }
    assert forall|a: int| 0 <= a < m implies #[trigger] done@[a] by {
        assert(order@.contains(a as usize));
        let u = choose|u: int| 0 <= u < m && order@[u] == a as usize;
    }
    // Every candidate is decided: gather the kept ones in order.
    let mut kept: Vec<usize> = Vec::new();
    let ghost mut from: Seq<int> = Seq::empty();
    let mut b: usize = 0;
    while b < m
        invariant
            m == peaks.len(),
            increasing(peaks@),
            keep.len() == m,
            done.len() == m,
            b <= m,
            forall|a: int| 0 <= a < m ==> #[trigger] done@[a],
            forall|a: int| 0 <= a < m && #[trigger] done@[a] ==> (keep@[a] == survives_distance(x@, member(peaks@), dist as int, peaks@[a] as int)),
            increasing(kept@),
            from.len() == kept.len(),
            forall|k: int| 0 <= k < kept.len() ==> 0 <= #[trigger] from[k] < b && keep@[from[k]] && kept@[k] == peaks@[from[k]],
            forall|a: int| 0 <= a < b && #[trigger] keep@[a] ==> kept@.contains(peaks@[a]),
        decreases m - b,
    {
        let ghost was = kept@;
        let ghost was_from = from;
        if keep[b] {
            proof {
                assert forall|k: int| 0 <= k < was.len() implies was[k] < peaks@[b as int] by {
                    assert(0 <= was_from[k] < b);
                }
            }
            kept.push(peaks[b]);
            proof {
                from = from.push(b as int);
                assert(kept@[was.len() as int] == peaks@[b as int]);
                assert forall|a: int| 0 <= a < b + 1 && #[trigger] keep@[a] implies kept@.contains(peaks@[a]) by {
                    if a < b {
                        let k = choose|k: int| 0 <= k < was.len() && was[k] == peaks@[a];
                        assert(kept@[k] == peaks@[a]);
                    }
                }
                assert forall|k: int| 0 <= k < kept.len() implies 0 <= #[trigger] from[k] < b + 1 && keep@[from[k]] && kept@[k] == peaks@[from[k]] by {
                    if k < was.len() {
                        assert(from[k] == was_from[k]);
                        assert(kept@[k] == was[k]);
                    }
                }
            }
        }
        b = b + 1;
    }
    proof {
        let c = member(peaks@);
        assert forall|k: int| 0 <= k < kept.len() implies #[trigger] kept@[k] < n && c(kept@[k] as int)
            && survives_distance(x@, c, dist as int, kept@[k] as int) by {
            let a = from[k];
            assert(done@[a]);
            assert(peaks@[a] < n);
        }
        assert forall|u: usize| #![trigger kept@.contains(u)] u < n && c(u as int) && survives_distance(x@, c, dist as int, u as int)
            implies kept@.contains(u) by {
            let k = choose|k: int| 0 <= k < peaks.len() && peaks@[k] as int == u as int;
            assert(done@[k]);
        }
    }
    kept
}

} // verus!
