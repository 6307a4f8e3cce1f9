//! The spatial index: an immutable store of soundings answering
//! nearest-neighbour and radius queries by great-circle distance.
//!
//! The index is bulk-built once from a point set and read-only afterwards.
//! Locations inside it are unique: when the input holds several soundings at
//! one quantized location, the last one wins.

use vstd::prelude::*;

use crate::bathymetry::{Bathymetry, Point};
use crate::distance::{distance_mm, distance_spec};

verus! {

/// The indices, in increasing order, of the soundings of `s` lying within
/// `radius` of `c`.
pub open spec fn within_idx_spec(s: Seq<Bathymetry>, c: Point, radius: int) -> Seq<int>
    decreases s.len(),
{
    if s.len() == 0 {
        Seq::empty()
    } else {
        let pre = within_idx_spec(s.drop_last(), c, radius);
        if distance_spec(s.last().location, c) <= radius {
            pre.push(s.len() - 1)
        } else {
            pre
        }
    }
}

/// Every entry of `within_idx_spec` is a valid index of a sounding within the
/// radius, and every such sounding is listed.
pub proof fn lemma_within_idx_props(s: Seq<Bathymetry>, c: Point, radius: int)
    ensures
        forall|k: int|
            0 <= k < within_idx_spec(s, c, radius).len() ==> {
                let i = #[trigger] within_idx_spec(s, c, radius)[k];
                0 <= i < s.len() && distance_spec(s[i].location, c) <= radius
            },
        forall|i: int|
            0 <= i < s.len() && #[trigger] distance_spec(s[i].location, c) <= radius
                ==> within_idx_spec(s, c, radius).contains(i),
    decreases s.len(),
{
    if s.len() > 0 {
        lemma_within_idx_props(s.drop_last(), c, radius);
        let pre = within_idx_spec(s.drop_last(), c, radius);
        let w = within_idx_spec(s, c, radius);
        assert(forall|i: int| 0 <= i < s.len() - 1 ==> s.drop_last()[i] == s[i]);
        assert forall|i: int|
            0 <= i < s.len() && #[trigger] distance_spec(s[i].location, c) <= radius
                implies w.contains(i) by {
            if i < s.len() - 1 {
                assert(pre.contains(i));
                let k = choose|k: int| 0 <= k < pre.len() && pre[k] == i;
                assert(w[k] == i);
            } else {
                assert(w[w.len() - 1] == i);
            }
        }
    }
}

/// The index of the sounding of `s` nearest to `c`: the first index
/// attaining the least great-circle distance. Zero on an empty sequence.
pub open spec fn nearest_idx_spec(s: Seq<Bathymetry>, c: Point) -> int
    decreases s.len(),
{
    if s.len() <= 1 {
        0
    } else {
        let p = nearest_idx_spec(s.drop_last(), c);
        if distance_spec(s.last().location, c) < distance_spec(s[p].location, c) {
            s.len() - 1
        } else {
            p
        }
    }
}

/// The nearest index lies in range on a non-empty sequence.
pub proof fn lemma_nearest_idx_bounds(s: Seq<Bathymetry>, c: Point)
    requires
        s.len() > 0,
    ensures
        0 <= nearest_idx_spec(s, c) < s.len(),
    decreases s.len(),
{
    if s.len() > 1 {
        lemma_nearest_idx_bounds(s.drop_last(), c);
    }
}

/// Whether the sounding at `j` is the last one of `s` at its location.
pub open spec fn keeps(s: Seq<Bathymetry>, j: int) -> bool {
    forall|l: int| j < l < s.len() ==> (#[trigger] s[l]).location != s[j].location
}

/// The first `k` soundings of `s`, keeping only the last writer of each
/// location.
pub open spec fn kept_spec(s: Seq<Bathymetry>, k: int) -> Seq<Bathymetry>
    decreases k,
{
    if k <= 0 {
        Seq::empty()
    } else {
        let pre = kept_spec(s, k - 1);
        if keeps(s, k - 1) {
            pre.push(s[k - 1])
        } else {
            pre
        }
    }
}

/// The input position that the kept sounding at `t` came from.
pub open spec fn kept_origin(s: Seq<Bathymetry>, k: int, t: int) -> int
    decreases k,
{
    if k <= 0 {
        0
    } else if keeps(s, k - 1) && t == kept_spec(s, k - 1).len() {
        k - 1
    } else {
        kept_origin(s, k - 1, t)
    }
}

/// The kept sounding at `t` is the last writer that `kept_origin` names.
proof fn lemma_kept_origin_at(s: Seq<Bathymetry>, k: int, t: int)
    requires
        k <= s.len(),
        0 <= t < kept_spec(s, k).len(),
    ensures
        0 <= kept_origin(s, k, t) < k,
        s[kept_origin(s, k, t)] == kept_spec(s, k)[t],
        keeps(s, kept_origin(s, k, t)),
    decreases k,
{
    let pre = kept_spec(s, k - 1);
    if keeps(s, k - 1) && t == pre.len() {
        assert(kept_origin(s, k, t) == k - 1);
        assert(s[k - 1] == kept_spec(s, k)[t]);
    } else {
        assert(kept_spec(s, k)[t] == pre[t]);
        assert(kept_origin(s, k, t) == kept_origin(s, k - 1, t));
        lemma_kept_origin_at(s, k - 1, t);
    }
}

/// Everything kept comes from the prefix and was a last writer there.
proof fn lemma_kept_no_invention(s: Seq<Bathymetry>, k: int)
    requires
        k <= s.len(),
    ensures
        forall|t: int|
            #![trigger kept_spec(s, k)[t]]
            #![trigger kept_origin(s, k, t)]
            0 <= t < kept_spec(s, k).len()
                ==> 0 <= kept_origin(s, k, t) && kept_origin(s, k, t) < k
                && s[kept_origin(s, k, t)] == kept_spec(s, k)[t]
                && keeps(s, kept_origin(s, k, t)),
{
    assert forall|t: int|
        #![trigger kept_spec(s, k)[t]]
        #![trigger kept_origin(s, k, t)]
        0 <= t < kept_spec(s, k).len()
            implies 0 <= kept_origin(s, k, t) && kept_origin(s, k, t) < k
            && s[kept_origin(s, k, t)] == kept_spec(s, k)[t]
            && keeps(s, kept_origin(s, k, t)) by {
        lemma_kept_origin_at(s, k, t);
    }
}

/// The kept soundings have pairwise distinct locations.
proof fn lemma_kept_wf(s: Seq<Bathymetry>, k: int)
    requires
        k <= s.len(),
    ensures
        forall|t: int, u: int|
            0 <= t < u < kept_spec(s, k).len()
                ==> (#[trigger] kept_spec(s, k)[t]).location
                != (#[trigger] kept_spec(s, k)[u]).location,
    decreases k,
{
    if k > 0 {
        lemma_kept_wf(s, k - 1);
        lemma_kept_no_invention(s, k - 1);
        let pre = kept_spec(s, k - 1);
        let cur = kept_spec(s, k);
        if keeps(s, k - 1) {
            assert forall|t: int, u: int|
                0 <= t < u < cur.len() implies (#[trigger] cur[t]).location
                != (#[trigger] cur[u]).location by {
                if u == cur.len() - 1 {
                    assert(pre[t] == cur[t]);
                    let j = kept_origin(s, k - 1, t);
                    assert(0 <= j < k - 1 && s[j] == pre[t] && keeps(s, j));
                    assert(s[k - 1].location != s[j].location);
                    assert(cur[u] == s[k - 1]);
                } else {
                    assert(cur[t] == pre[t] && cur[u] == pre[u]);
                }
            }
        }
    }
}

/// If `keeps` holds of `j` then the kept sequence contains `s[j]`.
proof fn lemma_kept_contains(s: Seq<Bathymetry>, k: int, j: int)
    requires
        0 <= j < k <= s.len(),
        keeps(s, j),
    ensures
        exists|t: int| 0 <= t < kept_spec(s, k).len() && #[trigger] kept_spec(s, k)[t] == s[j],
    decreases k,
{
    if j == k - 1 {
        assert(kept_spec(s, k)[kept_spec(s, k).len() - 1] == s[j]);
    } else {
        lemma_kept_contains(s, k - 1, j);
        let t = choose|t: int|
            0 <= t < kept_spec(s, k - 1).len() && #[trigger] kept_spec(s, k - 1)[t] == s[j];
        assert(kept_spec(s, k)[t] == s[j]);
    }
}

/// Every input location is still represented among the kept soundings.
proof fn lemma_kept_coverage(s: Seq<Bathymetry>, j: int)
    requires
        0 <= j < s.len(),
    ensures
        exists|t: int|
            0 <= t < kept_spec(s, s.len() as int).len()
                && (#[trigger] kept_spec(s, s.len() as int)[t]).location == s[j].location,
    decreases s.len() - j,
{
    if keeps(s, j) {
        lemma_kept_contains(s, s.len() as int, j);
        let t = choose|t: int|
            0 <= t < kept_spec(s, s.len() as int).len()
                && #[trigger] kept_spec(s, s.len() as int)[t] == s[j];
        assert(kept_spec(s, s.len() as int)[t].location == s[j].location);
    } else {
        let l = choose|l: int| j < l < s.len() && (#[trigger] s[l]).location == s[j].location;
        lemma_kept_coverage(s, l);
        let t = choose|t: int|
            0 <= t < kept_spec(s, s.len() as int).len()
                && (#[trigger] kept_spec(s, s.len() as int)[t]).location == s[l].location;
        assert(kept_spec(s, s.len() as int)[t].location == s[j].location);
    }
}

/// On input with pairwise distinct locations, everything is kept.
proof fn lemma_kept_distinct_identity(s: Seq<Bathymetry>, k: int)
    requires
        0 <= k <= s.len(),
        forall|i: int, j: int|
            0 <= i < j < s.len() ==> (#[trigger] s[i]).location != (#[trigger] s[j]).location,
    ensures
        kept_spec(s, k) == s.subrange(0, k),
    decreases k,
{
    if k == 0 {
        assert(kept_spec(s, k) =~= s.subrange(0, 0));
    } else {
        lemma_kept_distinct_identity(s, k - 1);
        assert(keeps(s, k - 1));
        assert(kept_spec(s, k) =~= s.subrange(0, k));
    }
}

/// An immutable spatial index over a set of soundings.
pub struct SpatialIndex {
    pub points: Vec<Bathymetry>,
}

impl SpatialIndex {
    /// All stored locations are distinct.
    pub open spec fn wf(self) -> bool {
        forall|i: int, j: int|
            0 <= i < j < self.points@.len()
                ==> (#[trigger] self.points@[i]).location != (#[trigger] self.points@[j]).location
    }

    /// The number of indexed soundings.
    pub fn len(&self) -> (r: usize)
        ensures
            r == self.points@.len(),
    {
        self.points.len()
    }

    /// Bulk-build the index from a point set.
    ///
    /// The index keeps exactly those input soundings that have no later input
    /// sounding at the same location, in input order: the last writer of a
    /// location wins. Input without repeated locations is stored exactly as
    /// given.
    pub fn build(points: Vec<Bathymetry>) -> (r: SpatialIndex)
        ensures
            r.points@ == kept_spec(points@, points@.len() as int),
            r.wf(),
            forall|i: int|
                #![trigger r.points@[i]]
                0 <= i < r.points@.len() ==> exists|j: int|
                    0 <= j < points@.len() && points@[j] == r.points@[i],
            forall|j: int|
                #![trigger points@[j]]
                0 <= j < points@.len() ==> exists|i: int|
                    0 <= i < r.points@.len() && points@[j].location == r.points@[i].location,
            (forall|i: int, j: int|
                0 <= i < j < points@.len()
                    ==> (#[trigger] points@[i]).location != (#[trigger] points@[j]).location)
                ==> r.points@ == points@,
    {
        let n = points.len();
        let mut out: Vec<Bathymetry> = Vec::new();
        let mut k: usize = 0;
        while k < n
            invariant
                k <= n,
                n == points@.len(),
                out@ == kept_spec(points@, k as int),
            decreases n - k,
        {
            let p = points[k];
            let mut l: usize = k + 1;
            while l < n && !(points[l].location.0 == p.location.0 && points[l].location.1
                == p.location.1)
                invariant
                    k < l <= n,
                    n == points@.len(),
                    p == points@[k as int],
                    forall|t: int|
                        k < t < l ==> (#[trigger] points@[t]).location != p.location,
                decreases n - l,
            {
                l = l + 1;
            }
            if l == n {
                proof {
                    assert(keeps(points@, k as int));
                }
                out.push(p);
            } else {
                proof {
                    assert(points@[l as int].location == p.location);
                    assert(!keeps(points@, k as int));
                }
            }
            k = k + 1;
        }
        proof {
            lemma_kept_wf(points@, n as int);
            lemma_kept_no_invention(points@, n as int);
            assert forall|i: int|
                #![trigger out@[i]]
                0 <= i < out@.len() implies exists|j: int|
                    0 <= j < points@.len() && points@[j] == out@[i] by {
                let j = kept_origin(points@, n as int, i);
                assert(0 <= j < n && points@[j] == kept_spec(points@, n as int)[i]);
            }
            assert forall|j: int|
                #![trigger points@[j]]
                0 <= j < points@.len() implies exists|i: int|
                    0 <= i < kept_spec(points@, n as int).len()
                        && points@[j].location == kept_spec(points@, n as int)[i].location by {
                lemma_kept_coverage(points@, j);
            }
            if forall|i: int, j: int|
                0 <= i < j < points@.len()
                    ==> (#[trigger] points@[i]).location != (#[trigger] points@[j]).location {
                lemma_kept_distinct_identity(points@, n as int);
            }
        }
        SpatialIndex { points: out }
    }

    /// The index of the sounding nearest to `c`: the first index attaining
    /// the least great-circle distance. `None` exactly when the index is
    /// empty.
    pub fn nearest_idx(&self, c: Point) -> (r: Option<usize>)
        ensures
            r is None <==> self.points@.len() == 0,
            match r {
                Option::None => true,
                Option::Some(b) => {
                    &&& b == nearest_idx_spec(self.points@, c)
                    &&& 0 <= b < self.points@.len()
                    &&& forall|j: int|
                        0 <= j < self.points@.len()
                            ==> distance_spec(self.points@[b as int].location, c)
                            <= distance_spec((#[trigger] self.points@[j]).location, c)
                    &&& forall|j: int|
                        0 <= j < b
                            ==> distance_spec(self.points@[b as int].location, c)
                            < distance_spec((#[trigger] self.points@[j]).location, c)
                },
            },
    {
        let n = self.points.len();
        if n == 0 {
            return None;
        }
        let mut best: usize = 0;
        let mut best_d: u64 = distance_mm(self.points[0].location, c);
        let mut i: usize = 1;
        while i < n
            invariant
                n == self.points@.len(),
                0 <= best < i <= n,
                1 <= i,
                best == nearest_idx_spec(self.points@.subrange(0, i as int), c),
                best_d == distance_spec(self.points@[best as int].location, c),
                forall|j: int|
                    0 <= j < i
                        ==> best_d <= distance_spec((#[trigger] self.points@[j]).location, c),
                forall|j: int|
                    0 <= j < best
                        ==> best_d < distance_spec((#[trigger] self.points@[j]).location, c),
            decreases n - i,
        {
            let ghost pre = self.points@.subrange(0, i as int);
            let ghost cur = self.points@.subrange(0, i as int + 1);
            proof {
                assert(cur.drop_last() =~= pre);
                assert(cur.last() == self.points@[i as int]);
                assert(cur[nearest_idx_spec(pre, c)] == pre[nearest_idx_spec(pre, c)]);
            }
            let d = distance_mm(self.points[i].location, c);
            if d < best_d {
                best = i;
                best_d = d;
            }
            i = i + 1;
        }
        proof {
            assert(self.points@.subrange(0, n as int) =~= self.points@);
        }
        Some(best)
    }

    /// The sounding nearest to `c`, or `None` when the index is empty.
    pub fn nearest(&self, c: Point) -> (r: Option<Bathymetry>)
        ensures
            r is None <==> self.points@.len() == 0,
            match r {
                Option::None => true,
                Option::Some(b) => exists|i: int|
                    {
                        &&& 0 <= i < self.points@.len()
                        &&& #[trigger] self.points@[i] == b
                        &&& forall|j: int|
                            0 <= j < self.points@.len()
                                ==> distance_spec(b.location, c)
                                <= distance_spec((#[trigger] self.points@[j]).location, c)
                    },
            },
    {
        match self.nearest_idx(c) {
            Some(i) => Some(self.points[i]),
            None => None,
        }
    }

    /// The indices, in increasing order, of all soundings within `radius`
    /// millimetres of `c`.
    pub fn within_radius_idx(&self, c: Point, radius: u64) -> (r: Vec<usize>)
        ensures
            r@.map_values(|u: usize| u as int) == within_idx_spec(self.points@, c, radius as int),
    {
        let n = self.points.len();
        let mut out: Vec<usize> = Vec::new();
        let mut i: usize = 0;
        while i < n
            invariant
                i <= n,
                n == self.points@.len(),
                out@.map_values(|u: usize| u as int) == within_idx_spec(
                    self.points@.subrange(0, i as int),
                    c,
                    radius as int,
                ),
            decreases n - i,
        {
            let ghost pre = self.points@.subrange(0, i as int);
            let ghost cur = self.points@.subrange(0, i as int + 1);
            proof {
                assert(cur.drop_last() =~= pre);
                assert(cur.last() == self.points@[i as int]);
            }
            let d = distance_mm(self.points[i].location, c);
            if d <= radius {
                out.push(i);
                proof {
                    assert(out@.map_values(|u: usize| u as int) =~= out@.drop_last().map_values(
                        |u: usize| u as int,
                    ).push(i as int));
                    assert(out@.drop_last() =~= out@.subrange(0, out@.len() - 1));
                }
            }
            i = i + 1;
        }
        proof {
            assert(self.points@.subrange(0, n as int) =~= self.points@);
        }
        out
    }

    /// All soundings within `radius` millimetres of `c`, in index order.
    pub fn within_radius(&self, c: Point, radius: u64) -> (r: Vec<Bathymetry>)
        ensures
            r@ == within_idx_spec(self.points@, c, radius as int).map_values(
                |i: int| self.points@[i],
            ),
    {
        proof {
            lemma_within_idx_props(self.points@, c, radius as int);
        }
        let idx = self.within_radius_idx(c, radius);
        let mut out: Vec<Bathymetry> = Vec::new();
        let mut k: usize = 0;
        let m = idx.len();
        let ghost w = within_idx_spec(self.points@, c, radius as int);
        proof {
            assert(w.len() == idx@.map_values(|u: usize| u as int).len());
        }
        while k < m
            invariant
                k <= m,
                m == idx@.len(),
                idx@.map_values(|u: usize| u as int) == w,
                forall|t: int|
                    0 <= t < w.len() ==> 0 <= #[trigger] w[t] < self.points@.len(),
                out@ == w.subrange(0, k as int).map_values(|i: int| self.points@[i]),
            decreases m - k,
        {
            proof {
                assert(w[k as int] == idx@.map_values(|u: usize| u as int)[k as int]);
            }
            out.push(self.points[idx[k]]);
            proof {
                assert(w.subrange(0, k as int + 1).drop_last() =~= w.subrange(0, k as int));
                assert(out@ =~= w.subrange(0, k as int + 1).map_values(|i: int| self.points@[i]));
            }
            k = k + 1;
        }
        proof {
            assert(w.subrange(0, m as int) =~= w);
        }
        out
    }
}

} // verus!
