//! The thalweg generator: a spatial index plus configuration, offering the
//! weighted shortest-path search and the refinement and resampling steps.

use vstd::prelude::*;

use crate::bathymetry::{Bathymetry, Point};
use crate::distance::{distance_mm, distance_spec, lemma_distance_symmetric};
use vstd::arithmetic::mul::{lemma_mul_inequality, lemma_mul_nonnegative};
use crate::frontier::{frontier_new, frontier_pop, frontier_push_increase, frontier_view, Frontier};
use crate::index::{
    kept_spec, nearest_idx_spec, within_idx_spec, lemma_within_idx_props, lemma_nearest_idx_bounds,
    SpatialIndex,
};

verus! {

/// The tentative cost stored for a node, or zero when none is stored.
pub open spec fn g_of(o: Option<(u128, usize)>) -> int {
    match o {
        Option::Some(pr) => pr.0 as int,
        Option::None => 0,
    }
}

/// The predecessor stored for a node, or zero when none is stored.
pub open spec fn p_of(o: Option<(u128, usize)>) -> int {
    match o {
        Option::Some(pr) => pr.1 as int,
        Option::None => 0,
    }
}

/// The search state is sound: the source carries cost zero and itself as
/// predecessor, and every settled node names a settled predecessor one
/// within-resolution hop away whose cost is strictly smaller.
pub open spec fn state_inv(
    gmap: Seq<Option<(u128, usize)>>,
    pts: Seq<Bathymetry>,
    src: int,
    res: int,
) -> bool {
    &&& gmap.len() == pts.len()
    &&& 0 <= src < pts.len()
    &&& gmap[src] == Option::Some((0u128, src as usize))
    &&& forall|k: int|
        0 <= k < gmap.len() && (#[trigger] gmap[k]) is Some ==> {
            let p = p_of(gmap[k]);
            &&& 0 <= p < pts.len()
            &&& gmap[p] is Some
            &&& (k != src ==> distance_spec(pts[k].location, pts[p].location) <= res && g_of(
                gmap[k],
            ) >= g_of(gmap[p]) + 1)
        }
}

/// Every queued node is a settled index of the state.
pub open spec fn queue_inv(q: Map<usize, u64>, gmap: Seq<Option<(u128, usize)>>) -> bool {
    forall|i: usize|
        #[trigger] q.dom().contains(i) ==> 0 <= i < gmap.len() && gmap[i as int] is Some
}

/// The stored cost of a node for the termination potential: an unsettled
/// node counts as a cost above anything a settled node can carry.
pub open spec fn gval(o: Option<(u128, usize)>) -> int {
    match o {
        Option::Some(pr) => pr.0 as int,
        Option::None => 0x2000000000000000000000,
    }
}

/// The sum of all stored costs: every relaxation strictly lowers it.
pub open spec fn sum_g(gmap: Seq<Option<(u128, usize)>>) -> int
    decreases gmap.len(),
{
    if gmap.len() == 0 {
        0
    } else {
        sum_g(gmap.drop_last()) + gval(gmap.last())
    }
}

/// How many nodes are settled.
pub open spec fn count_some(gmap: Seq<Option<(u128, usize)>>) -> int
    decreases gmap.len(),
{
    if gmap.len() == 0 {
        0
    } else {
        count_some(gmap.drop_last()) + if gmap.last() is Some {
            1int
        } else {
            0int
        }
    }
}

/// Every settled cost stays under the settled count times the greatest hop
/// cost, so additions of one more hop never overflow.
pub open spec fn bounded_inv(gmap: Seq<Option<(u128, usize)>>) -> bool {
    forall|k: int|
        0 <= k < gmap.len() && (#[trigger] gmap[k]) is Some ==> g_of(gmap[k]) <= count_some(gmap)
            * 17592186044416
}

/// How one update moves the cost sum and the settled count.
proof fn lemma_sum_count_update(
    gmap: Seq<Option<(u128, usize)>>,
    i: int,
    x: Option<(u128, usize)>,
)
    requires
        0 <= i < gmap.len(),
    ensures
        sum_g(gmap.update(i, x)) == sum_g(gmap) - gval(gmap[i]) + gval(x),
        count_some(gmap.update(i, x)) == count_some(gmap) - (if gmap[i] is Some {
            1int
        } else {
            0int
        }) + (if x is Some {
            1int
        } else {
            0int
        }),
    decreases gmap.len(),
{
    let up = gmap.update(i, x);
    if i == gmap.len() - 1 {
        assert(up.drop_last() =~= gmap.drop_last());
        assert(up.last() == x);
    } else {
        assert(up.drop_last() =~= gmap.drop_last().update(i, x));
        assert(up.last() == gmap.last());
        lemma_sum_count_update(gmap.drop_last(), i, x);
        assert(gmap.drop_last()[i] == gmap[i]);
    }
}

/// The settled count lies between zero and the node count.
proof fn lemma_count_some_bounds(gmap: Seq<Option<(u128, usize)>>)
    ensures
        0 <= count_some(gmap) <= gmap.len(),
    decreases gmap.len(),
{
    if gmap.len() > 0 {
        lemma_count_some_bounds(gmap.drop_last());
    }
}

/// The cost sum is never negative.
proof fn lemma_sum_g_nonneg(gmap: Seq<Option<(u128, usize)>>)
    ensures
        sum_g(gmap) >= 0,
    decreases gmap.len(),
{
    if gmap.len() > 0 {
        lemma_sum_g_nonneg(gmap.drop_last());
    }
}

/// A state holding no entries counts no settled nodes.
proof fn lemma_zero_map_sums(n: int)
    requires
        0 <= n,
    ensures
        count_some(Seq::new(n as nat, |k: int| Option::<(u128, usize)>::None)) == 0,
    decreases n,
{
    if n > 0 {
        lemma_zero_map_sums(n - 1);
        let s = Seq::new(n as nat, |k: int| Option::<(u128, usize)>::None);
        assert(s.drop_last() =~= Seq::new((n - 1) as nat, |k: int| Option::<(u128, usize)>::None));
    }
}

/// Whether every indexed sounding within the resolution of node `k` is
/// settled: node `k` has been expanded.
pub open spec fn expanded_at(
    gmap: Seq<Option<(u128, usize)>>,
    pts: Seq<Bathymetry>,
    res: int,
    k: int,
) -> bool {
    forall|nb: int|
        0 <= nb < pts.len() && #[trigger] distance_spec(pts[nb].location, pts[k].location) <= res
            ==> gmap[nb] is Some
}

/// Every settled node outside the frontier has been expanded.
pub open spec fn closure_inv(
    gmap: Seq<Option<(u128, usize)>>,
    pts: Seq<Bathymetry>,
    res: int,
    q: Map<usize, u64>,
) -> bool {
    forall|k: int|
        0 <= k < gmap.len() && (#[trigger] gmap[k]) is Some && !q.dom().contains(k as usize)
            ==> expanded_at(gmap, pts, res, k)
}

/// A within-resolution chain of indexed soundings.
pub open spec fn is_chain(pts: Seq<Bathymetry>, res: int, c: Seq<int>) -> bool {
    &&& c.len() >= 1
    &&& forall|i: int| 0 <= i < c.len() ==> 0 <= #[trigger] c[i] < pts.len()
    &&& forall|i: int|
        0 <= i < c.len() - 1 ==> distance_spec(
            pts[#[trigger] c[i]].location,
            pts[c[i + 1]].location,
        ) <= res
}

/// Whether some within-resolution chain joins the soundings at `a` and `b`.
pub open spec fn connected_spec(pts: Seq<Bathymetry>, res: int, a: int, b: int) -> bool {
    exists|c: Seq<int>| is_chain(pts, res, c) && c[0] == a && c[c.len() - 1] == b
}

/// When every settled node is expanded, settledness spreads along any chain.
proof fn lemma_chain_settled(
    gmap: Seq<Option<(u128, usize)>>,
    pts: Seq<Bathymetry>,
    res: int,
    c: Seq<int>,
)
    requires
        gmap.len() == pts.len(),
        forall|k: int|
            0 <= k < gmap.len() && (#[trigger] gmap[k]) is Some ==> expanded_at(gmap, pts, res, k),
        is_chain(pts, res, c),
        gmap[c[0]] is Some,
    ensures
        gmap[c[c.len() - 1]] is Some,
    decreases c.len(),
{
    if c.len() > 1 {
        assert(distance_spec(pts[c[0]].location, pts[c[1]].location) <= res);
        lemma_distance_symmetric(pts[c[1]].location, pts[c[0]].location);
        assert(expanded_at(gmap, pts, res, c[0]));
        assert(distance_spec(pts[c[1]].location, pts[c[0]].location) <= res);
        assert(gmap[c[1]] is Some);
        let d = c.drop_first();
        assert(forall|i: int| 0 <= i < d.len() ==> d[i] == c[i + 1]);
        assert(is_chain(pts, res, d));
        lemma_chain_settled(gmap, pts, res, d);
        assert(d[d.len() - 1] == c[c.len() - 1]);
    }
}

/// After the popped node's neighbours are all settled, every settled node
/// outside the frontier is expanded again.
#[verifier::spinoff_prover]
proof fn lemma_closure_step(
    g0: Seq<Option<(u128, usize)>>,
    gmap: Seq<Option<(u128, usize)>>,
    pts: Seq<Bathymetry>,
    res: int,
    q_pre: Map<usize, u64>,
    q0: Map<usize, u64>,
    qf: Map<usize, u64>,
    cur: int,
    cand: Seq<int>,
)
    requires
        gmap.len() == pts.len(),
        g0.len() == gmap.len(),
        pts.len() <= usize::MAX,
        0 <= cur < pts.len(),
        q0 == q_pre.remove(cur as usize),
        closure_inv(g0, pts, res, q_pre),
        forall|nb: int|
            0 <= nb < pts.len() && #[trigger] distance_spec(
                pts[nb].location,
                pts[cur].location,
            ) <= res ==> cand.contains(nb),
        forall|t: int| 0 <= t < cand.len() ==> 0 <= #[trigger] cand[t] < pts.len(),
        forall|t: int| 0 <= t < cand.len() ==> gmap[#[trigger] cand[t]] is Some,
        forall|j: int| 0 <= j < gmap.len() && #[trigger] g0[j] is Some ==> gmap[j] is Some,
        forall|j: int|
            0 <= j < gmap.len() && (#[trigger] gmap[j]) is Some && !(g0[j] is Some)
                ==> qf.dom().contains(j as usize),
        forall|j: usize| #[trigger] q0.dom().contains(j) ==> qf.dom().contains(j),
    ensures
        closure_inv(gmap, pts, res, qf),
{
    assert(expanded_at(gmap, pts, res, cur)) by {
        assert forall|nb: int|
            0 <= nb < pts.len() && #[trigger] distance_spec(
                pts[nb].location,
                pts[cur].location,
            ) <= res implies gmap[nb] is Some by {
            assert(cand.contains(nb));
            let t = choose|t: int| 0 <= t < cand.len() && cand[t] == nb;
            assert(gmap[cand[t]] is Some);
        }
    }
    assert forall|k: int|
        0 <= k < gmap.len() && (#[trigger] gmap[k]) is Some && !qf.dom().contains(k as usize)
            implies expanded_at(gmap, pts, res, k) by {
        if k != cur {
            assert(!q0.dom().contains(k as usize));
            assert(!q_pre.dom().contains(k as usize));
            assert(g0[k] is Some);
            assert(expanded_at(g0, pts, res, k));
            assert forall|nb: int|
                0 <= nb < pts.len() && #[trigger] distance_spec(
                    pts[nb].location,
                    pts[k].location,
                ) <= res implies gmap[nb] is Some by {
                assert(g0[nb] is Some);
            }
        }
    }
}

/// Relaxing a node onto a strictly better cost through a settled neighbour
/// keeps the search state sound.
#[verifier::spinoff_prover]
#[verifier::rlimit(100)]
proof fn lemma_state_update(
    gmap: Seq<Option<(u128, usize)>>,
    pts: Seq<Bathymetry>,
    src: int,
    res: int,
    nb: int,
    g_n: u128,
    cur: int,
)
    requires
        state_inv(gmap, pts, src, res),
        gmap.len() <= usize::MAX,
        0 <= nb < gmap.len(),
        0 <= cur < gmap.len(),
        gmap[cur] is Some,
        g_n >= g_of(gmap[cur]) + 1,
        gmap[nb] is Some ==> g_n < g_of(gmap[nb]),
        distance_spec(pts[nb].location, pts[cur].location) <= res,
    ensures
        nb != src,
        nb != cur,
        state_inv(gmap.update(nb, Option::Some((g_n, cur as usize))), pts, src, res),
{
    if nb == src {
        assert(g_of(gmap[src]) == 0);
        assert(false);
    }
    if nb == cur {
        assert(false);
    }
    let gm2 = gmap.update(nb, Option::Some((g_n, cur as usize)));
    assert(gm2[src] == gmap[src]);
    assert forall|k: int| 0 <= k < gm2.len() && (#[trigger] gm2[k]) is Some implies {
        let p = p_of(gm2[k]);
        &&& 0 <= p < pts.len()
        &&& gm2[p] is Some
        &&& (k != src ==> distance_spec(pts[k].location, pts[p].location) <= res && g_of(gm2[k])
            >= g_of(gm2[p]) + 1)
    } by {
        if k == nb {
            assert(gm2[k] == Option::Some((g_n, cur as usize)));
            assert(p_of(gm2[k]) == cur);
            assert(gm2[cur] == gmap[cur]);
        } else {
            assert(gm2[k] == gmap[k]);
            let p = p_of(gmap[k]);
            assert(0 <= p < pts.len() && gmap[p] is Some);
            if p == nb {
                assert(gm2[p] is Some);
                if k != src {
                    assert(g_of(gmap[k]) >= g_of(gmap[p]) + 1);
                    assert(g_n < g_of(gmap[nb]));
                    assert(g_of(gm2[p]) == g_n);
                }
            } else {
                assert(gm2[p] == gmap[p]);
            }
        }
    }
}

/// Scaled cost of one unweighted hop: 1.0 in thousandths.
pub const UNIT_COST: u64 = 1000;

/// The depth bias of the weighted cost, in millimetres: 100 m.
pub const WEIGHT_BIAS_MM: i64 = 100000;

/// The divisor of the weighted cost: 100 m expressed over the thousandth scale.
pub const WEIGHT_SCALE: i64 = 100;

/// Generates thalwegs over one immutable spatial index.
///
/// `resolution` is the target point spacing in millimetres; it also bounds
/// the search radius. `max_depth` is the greatest depth of the indexed
/// soundings, fixed at construction for the weighted cost.
pub struct ThalwegGenerator {
    pub index: SpatialIndex,
    pub resolution: u64,
    pub weighted: bool,
    pub max_depth: i64,
}

/// The greatest depth of a sounding sequence, in millimetres; zero when empty.
pub open spec fn max_depth_spec(s: Seq<Bathymetry>) -> int
    decreases s.len(),
{
    if s.len() == 0 {
        0
    } else {
        let pre = max_depth_spec(s.drop_last());
        if s.last().depth > pre {
            s.last().depth as int
        } else {
            pre
        }
    }
}

/// The scaled cost of stepping onto a sounding of depth `depth`.
///
/// Unweighted, every hop costs one unit. Weighted, a hop costs
/// `(max_depth - depth + bias) / scale` in thousandths, floored at one unit
/// and capped at a value that covers depth spreads of over a thousand
/// kilometres, so that accumulated costs stay machine-representable. The
/// weighted cost is a heuristic and carries no shortest-path guarantee.
pub open spec fn edge_cost_spec(weighted: bool, max_depth: int, depth: int) -> int {
    if !weighted {
        1000
    } else {
        let raw = (max_depth - depth + 100000) / 100;
        if raw < 1000 {
            1000
        } else if raw > 17592186044416 {
            17592186044416
        } else {
            raw
        }
    }
}

/// The local search radius of the sink step at an interior point: half the
/// lesser neighbour distance, capped at the resolution.
pub open spec fn sink_radius_spec(prev: Point, cur: Point, next: Point, resolution: int) -> int {
    let d1 = distance_spec(cur, prev);
    let d2 = distance_spec(cur, next);
    let d = if d1 < d2 {
        d1
    } else {
        d2
    };
    let r = d / 2;
    if r > resolution {
        resolution
    } else {
        r
    }
}

/// Whether `m` lists strictly increasing positions of `s` that spell out `r`.
pub open spec fn picks(r: Seq<Bathymetry>, s: Seq<Bathymetry>, m: Seq<int>) -> bool {
    &&& m.len() == r.len()
    &&& forall|t: int| 0 <= t < m.len() ==> 0 <= #[trigger] m[t] < s.len() && r[t] == s[m[t]]
    &&& forall|t: int| 0 <= t < m.len() - 1 ==> #[trigger] m[t] < m[t + 1]
}

/// Whether `r` is a subsequence of `s`: `s` with some points deleted.
pub open spec fn is_subseq_of(r: Seq<Bathymetry>, s: Seq<Bathymetry>) -> bool {
    exists|m: Seq<int>| picks(r, s, m)
}

/// A strictly increasing run of positions grows at least as fast as `t`.
proof fn lemma_picks_len(r: Seq<Bathymetry>, s: Seq<Bathymetry>, m: Seq<int>, t: int)
    requires
        picks(r, s, m),
        0 <= t < m.len(),
    ensures
        m[t] >= t,
    decreases t,
{
    if t > 0 {
        lemma_picks_len(r, s, m, t - 1);
    }
}

/// A subsequence is never longer than the sequence it came from.
pub proof fn lemma_subseq_len(r: Seq<Bathymetry>, s: Seq<Bathymetry>)
    requires
        is_subseq_of(r, s),
    ensures
        r.len() <= s.len(),
{
    let m = choose|m: Seq<int>| picks(r, s, m);
    if r.len() > 0 {
        lemma_picks_len(r, s, m, m.len() - 1);
    }
}

/// The interior of the shrink step from position `i` on, with `kept` the
/// last retained sounding: a point is dropped when it sits within half the
/// resolution of the retained predecessor and is shallower than it.
pub open spec fn shrink_mid_spec(s: Seq<Bathymetry>, i: int, kept: Bathymetry, half: int)
    -> Seq<Bathymetry>
    decreases s.len() - i,
{
    if i < 0 || i >= s.len() - 1 {
        Seq::empty()
    } else if distance_spec(s[i].location, kept.location) < half && kept.depth > s[i].depth {
        shrink_mid_spec(s, i + 1, kept, half)
    } else {
        seq![s[i]] + shrink_mid_spec(s, i + 1, s[i], half)
    }
}

/// The shrink step: both endpoints stay; an interior point is dropped when it
/// lies within `half` of the last retained point and is shallower than it.
pub open spec fn shrink_spec(s: Seq<Bathymetry>, half: int) -> Seq<Bathymetry> {
    if s.len() <= 1 {
        s
    } else {
        seq![s[0]] + shrink_mid_spec(s, 1, s[0], half) + seq![s.last()]
    }
}

/// The deepest sounding among `points` at the listed candidate indices,
/// starting from `start`; only strictly deeper candidates replace the
/// running best, so ties keep the earlier one.
pub open spec fn deepest_spec(points: Seq<Bathymetry>, cands: Seq<int>, start: Bathymetry)
    -> Bathymetry
    decreases cands.len(),
{
    if cands.len() == 0 {
        start
    } else {
        let b = deepest_spec(points, cands.drop_last(), start);
        if b.depth < points[cands.last()].depth {
            points[cands.last()]
        } else {
            b
        }
    }
}

/// The deepest choice is never shallower than its starting sounding.
proof fn lemma_deepest_ge(points: Seq<Bathymetry>, cands: Seq<int>, start: Bathymetry)
    ensures
        deepest_spec(points, cands, start).depth >= start.depth,
    decreases cands.len(),
{
    if cands.len() > 0 {
        lemma_deepest_ge(points, cands.drop_last(), start);
    }
}

impl ThalwegGenerator {
    /// Builds an unweighted generator over `points` with the given resolution
    /// in metres.
    pub fn from_points(points: Vec<Bathymetry>, resolution: usize) -> (r: Self)
        requires
            1 <= resolution <= 0x38d7ea4c68000,
        ensures
            r.index.points@ == kept_spec(points@, points@.len() as int),
            r.index.wf(),
            r.resolution == resolution * 1000,
            r.weighted == false,
            r.max_depth == max_depth_spec(points@),
    {
        Self::new(points, resolution, false)
    }

    /// Builds a generator over `points` with the given resolution in metres,
    /// weighted when asked, with the greatest input depth fixed as the
    /// weighting reference.
    pub fn new(points: Vec<Bathymetry>, resolution: usize, weighted: bool) -> (r: Self)
        requires
            1 <= resolution <= 0x38d7ea4c68000,
        ensures
            r.index.points@ == kept_spec(points@, points@.len() as int),
            r.index.wf(),
            r.resolution == resolution * 1000,
            r.weighted == weighted,
            r.max_depth == max_depth_spec(points@),
    {
        let n = points.len();
        let mut max_depth: i64 = 0;
        let mut i: usize = 0;
        while i < n
            invariant
                i <= n,
                n == points@.len(),
                max_depth == max_depth_spec(points@.subrange(0, i as int)),
            decreases n - i,
        {
            let ghost pre = points@.subrange(0, i as int);
            let ghost cur = points@.subrange(0, i as int + 1);
            proof {
                assert(cur.drop_last() =~= pre);
                assert(cur.last() == points@[i as int]);
            }
            if points[i].depth > max_depth {
                max_depth = points[i].depth;
            }
            i = i + 1;
        }
        proof {
            assert(points@.subrange(0, n as int) =~= points@);
        }
        let index = SpatialIndex::build(points);
        ThalwegGenerator { index, resolution: (resolution as u64) * 1000, weighted, max_depth }
    }

    /// The scaled cost of stepping onto a sounding of the given depth.
    fn edge_cost(&self, depth: i64) -> (c: u64)
        ensures
            c == edge_cost_spec(self.weighted, self.max_depth as int, depth as int),
            1000 <= c <= 17592186044416,
    {
        if !self.weighted {
            UNIT_COST
        } else {
            let num = (self.max_depth as i128) - (depth as i128) + (WEIGHT_BIAS_MM as i128);
            if num < 0 {
                proof {
                    vstd::arithmetic::div_mod::lemma_div_is_ordered(num as int, 0, 100);
                    vstd::arithmetic::div_mod::lemma_div_basics_1(100);
                }
                UNIT_COST
            } else {
                let raw = num / (WEIGHT_SCALE as i128);
                proof {
                    vstd::arithmetic::div_mod::lemma_div_pos_is_pos(num as int, 100);
                }
                if raw < 1000 {
                    UNIT_COST
                } else if raw > 17592186044416 {
                    17592186044416
                } else {
                    raw as u64
                }
            }
        }
    }

    /// Expands one popped node: every indexed sounding within the resolution
    /// is relaxed onto the cost through the node when that improves it, and
    /// queued. The state stays sound and bounded, settledness only grows,
    /// newly settled nodes are queued, the queue never loses anyone, the
    /// node ends up expanded, and either nothing changed at all or the cost
    /// sum strictly fell.
    #[verifier::spinoff_prover]
    #[verifier::rlimit(100)]
    fn expand_node(
        &self,
        gmap: &mut Vec<Option<(u128, usize)>>,
        queue: &mut Frontier,
        cur: usize,
        src: usize,
        snk: usize,
    )
        requires
            old(gmap)@.len() == self.index.points@.len(),
            self.index.points@.len() <= 0x10000000000,
            (cur as int) < old(gmap)@.len(),
            (src as int) < old(gmap)@.len(),
            (snk as int) < old(gmap)@.len(),
            state_inv(old(gmap)@, self.index.points@, src as int, self.resolution as int),
            queue_inv(frontier_view(*old(queue)), old(gmap)@),
            bounded_inv(old(gmap)@),
            frontier_view(*old(queue)).dom().finite(),
            old(gmap)@[cur as int] is Some,
        ensures
            final(gmap)@.len() == old(gmap)@.len(),
            state_inv(final(gmap)@, self.index.points@, src as int, self.resolution as int),
            queue_inv(frontier_view(*final(queue)), final(gmap)@),
            bounded_inv(final(gmap)@),
            frontier_view(*final(queue)).dom().finite(),
            forall|j: int|
                0 <= j < final(gmap)@.len() && #[trigger] old(gmap)@[j] is Some
                    ==> final(gmap)@[j] is Some,
            forall|j: int|
                0 <= j < final(gmap)@.len() && (#[trigger] final(gmap)@[j]) is Some
                    && !(old(gmap)@[j] is Some)
                    ==> frontier_view(*final(queue)).dom().contains(j as usize),
            forall|j: usize|
                #[trigger] frontier_view(*old(queue)).dom().contains(j) ==> frontier_view(
                    *final(queue),
                ).dom().contains(j),
            expanded_at(final(gmap)@, self.index.points@, self.resolution as int, cur as int),
            (final(gmap)@ == old(gmap)@ && frontier_view(*final(queue)) == frontier_view(
                *old(queue),
            )) || sum_g(final(gmap)@) < sum_g(old(gmap)@),
    {
        let ghost pts = self.index.points@;
        let ghost res = self.resolution as int;
        let ghost n = pts.len();
        let ghost g0 = gmap@;
        let ghost q0 = frontier_view(*queue);
        let g_cur = match gmap[cur] {
            Some(pr) => pr.0,
            None => 0,
        };
        let cands = self.index.within_radius_idx(self.index.points[cur].location, self.resolution);
        let ghost cand_seq = within_idx_spec(pts, pts[cur as int].location, res);
        proof {
            lemma_within_idx_props(pts, pts[cur as int].location, res);
        }
        let _glen = gmap.len();
        let m = cands.len();
        let mut k: usize = 0;
        while k < m
            invariant
                n == pts.len(),
                n <= 0x10000000000,
                gmap@.len() == n,
                gmap@.len() <= usize::MAX,
                0 <= src < n,
                0 <= snk < n,
                0 <= cur < n,
                res == self.resolution as int,
                pts == self.index.points@,
                m == cands@.len(),
                cand_seq == cands@.map_values(|u: usize| u as int),
                forall|t: int|
                    0 <= t < cand_seq.len() ==> {
                        let c = #[trigger] cand_seq[t];
                        0 <= c < pts.len() && distance_spec(
                            pts[c].location,
                            pts[cur as int].location,
                        ) <= res
                    },
                state_inv(gmap@, pts, src as int, res),
                queue_inv(frontier_view(*queue), gmap@),
                bounded_inv(gmap@),
                frontier_view(*queue).dom().finite(),
                gmap@[cur as int] is Some,
                g_of(gmap@[cur as int]) == g_cur,
                forall|j: int| 0 <= j < n && #[trigger] g0[j] is Some ==> gmap@[j] is Some,
                forall|j: int|
                    0 <= j < n && (#[trigger] gmap@[j]) is Some && !(g0[j] is Some)
                        ==> frontier_view(*queue).dom().contains(j as usize),
                forall|j: usize|
                    #[trigger] q0.dom().contains(j) ==> frontier_view(*queue).dom().contains(j),
                forall|t: int| 0 <= t < k ==> gmap@[#[trigger] cand_seq[t]] is Some,
                (gmap@ == g0 && frontier_view(*queue) == q0) || sum_g(gmap@) < sum_g(g0),
            decreases m - k,
        {
            proof {
                assert(cand_seq[k as int] == cands@.map_values(|u: usize| u as int)[k as int]);
            }
            let nb = cands[k];
            let nb_depth = self.index.points[nb].depth;
            let cost = self.edge_cost(nb_depth);
            proof {
                lemma_count_some_bounds(gmap@);
                assert(g_of(gmap@[cur as int]) <= count_some(gmap@) * 17592186044416);
            }
            let g_n: u128 = g_cur + (cost as u128);
            let improves = match gmap[nb] {
                Some(pr) => g_n < pr.0,
                None => true,
            };
            if improves {
                let ghost before = gmap@;
                let ghost fresh = !(gmap@[nb as int] is Some);
                proof {
                    lemma_state_update(before, pts, src as int, res, nb as int, g_n, cur as int);
                    lemma_sum_count_update(before, nb as int, Option::Some((g_n, cur)));
                }
                gmap.set(nb, Some((g_n, cur)));
                proof {
                    lemma_count_some_bounds(before);
                    assert(bounded_inv(gmap@)) by {
                        assert forall|j: int|
                            0 <= j < gmap@.len() && (#[trigger] gmap@[j]) is Some implies g_of(
                            gmap@[j]) <= count_some(gmap@) * 17592186044416 by {
                            if j == nb {
                                if fresh {
                                    assert(count_some(gmap@) == count_some(before) + 1);
                                } else {
                                    assert(g_n < g_of(before[nb as int]));
                                }
                            } else {
                                assert(gmap@[j] == before[j]);
                                assert(count_some(before) <= count_some(gmap@));
                            }
                        }
                    }
                    assert(sum_g(gmap@) < sum_g(g0)) by {
                        assert(gval(Option::Some((g_n, cur))) < 0x2000000000000000000000);
                        assert(gval(gmap@[nb as int]) < gval(before[nb as int]));
                        assert(sum_g(gmap@) < sum_g(before));
                    }
                }
                let h = distance_mm(
                    self.index.points[nb].location,
                    self.index.points[snk].location,
                );
                let f: u128 = g_n + (h as u128);
                let prio: u64 = if f > 0xffff_ffff_ffff_fffe {
                    0
                } else {
                    u64::MAX - (f as u64)
                };
                let ghost qb = frontier_view(*queue);
                frontier_push_increase(queue, nb, prio);
                proof {
                    assert forall|q: usize|
                        #[trigger] frontier_view(*queue).dom().contains(q) implies 0 <= q
                        < gmap@.len() && gmap@[q as int] is Some by {
                        if q != nb {
                            assert(qb.dom().contains(q));
                            assert(gmap@[q as int] == before[q as int]);
                        }
                    }
                    assert(frontier_view(*queue).dom().contains(nb));
                }
            }
            k = k + 1;
        }
        proof {
            assert(expanded_at(gmap@, pts, res, cur as int)) by {
                assert forall|nb: int|
                    0 <= nb < pts.len() && #[trigger] distance_spec(
                        pts[nb].location,
                        pts[cur as int].location,
                    ) <= res implies gmap@[nb] is Some by {
                    assert(cand_seq.contains(nb));
                    let t = choose|t: int| 0 <= t < cand_seq.len() && cand_seq[t] == nb;
                    assert(gmap@[cand_seq[t]] is Some);
                }
            }
        }
    }

    /// Searches for a channel path from `source` to `sink`.
    ///
    /// Both ends are first snapped to their nearest indexed soundings. The
    /// answer is absent exactly when the index is empty or no
    /// within-resolution chain of indexed soundings joins the snapped ends.
    /// A returned path is such a chain: it starts at the snapped source,
    /// ends at the snapped sink, consists of indexed soundings only, every
    /// consecutive pair lies within the resolution of one another, and over
    /// a well-formed index it visits no location twice. The search is
    /// best-first on hop cost plus remaining distance; with the weighted
    /// cost it seeks deep water and promises no shortest path.
    #[verifier::spinoff_prover]
    #[verifier::rlimit(100)]
    pub fn thalweg(&self, source: Point, sink: Point) -> (r: Option<Vec<Bathymetry>>)
        requires
            self.index.points@.len() <= 0x10000000000,
        ensures
            r is None <==> (self.index.points@.len() == 0 || !connected_spec(
                self.index.points@,
                self.resolution as int,
                nearest_idx_spec(self.index.points@, source),
                nearest_idx_spec(self.index.points@, sink),
            )),
            match r {
                Option::None => true,
                Option::Some(path) => {
                    &&& self.index.points@.len() > 0
                    &&& path@.len() >= 1
                    &&& path@[0] == self.index.points@[nearest_idx_spec(
                        self.index.points@,
                        source,
                    )]
                    &&& path@[path@.len() - 1] == self.index.points@[nearest_idx_spec(
                        self.index.points@,
                        sink,
                    )]
                    &&& forall|i: int|
                        #![trigger path@[i]]
                        0 <= i < path@.len() ==> exists|j: int|
                            0 <= j < self.index.points@.len() && self.index.points@[j] == path@[i]
                    &&& forall|i: int|
                        0 <= i < path@.len() - 1 ==> distance_spec(
                            (#[trigger] path@[i]).location,
                            path@[i + 1].location,
                        ) <= self.resolution as int
                    &&& (self.index.wf() ==> forall|i: int, j: int|
                        0 <= i < j < path@.len() ==> (#[trigger] path@[i]).location != (
                        #[trigger] path@[j]).location)
                },
            },
    {
        let n = self.index.len();
        let src = match self.index.nearest_idx(source) {
            Some(i) => i,
            None => {
                return None;
            },
        };
        let snk = match self.index.nearest_idx(sink) {
            Some(i) => i,
            None => {
                return None;
            },
        };
        let ghost pts = self.index.points@;
        let ghost res = self.resolution as int;

        let mut gmap: Vec<Option<(u128, usize)>> = Vec::new();
        let mut i: usize = 0;
        while i < n
            invariant
                i <= n,
                gmap@.len() == i,
                forall|k: int| 0 <= k < i ==> #[trigger] gmap@[k] is None,
            decreases n - i,
        {
            gmap.push(None);
            i = i + 1;
        }
        gmap.set(src, Some((0u128, src)));
        let mut queue = frontier_new();
        frontier_push_increase(&mut queue, src, u64::MAX);
        proof {
            lemma_sum_count_update(
                Seq::new(n as nat, |k: int| Option::<(u128, usize)>::None),
                src as int,
                Option::Some((0u128, src)),
            );
            lemma_zero_map_sums(n as int);
            assert(gmap@ =~= Seq::new(n as nat, |k: int| Option::<(u128, usize)>::None).update(
                src as int,
                Option::Some((0u128, src)),
            ));
            assert(frontier_view(queue).dom() =~= Set::<usize>::empty().insert(src));
        }

        loop
            invariant_except_break
                closure_inv(gmap@, pts, res, frontier_view(queue)),
            invariant
                n == pts.len(),
                n <= 0x10000000000,
                gmap@.len() == n,
                0 <= src < n,
                0 <= snk < n,
                res == self.resolution as int,
                pts == self.index.points@,
                state_inv(gmap@, pts, src as int, res),
                queue_inv(frontier_view(queue), gmap@),
                bounded_inv(gmap@),
                frontier_view(queue).dom().finite(),
            ensures
                n == pts.len(),
                gmap@.len() == n,
                state_inv(gmap@, pts, src as int, res),
                gmap@[snk as int] is Some || forall|k: int|
                    0 <= k < gmap@.len() && (#[trigger] gmap@[k]) is Some ==> expanded_at(
                        gmap@,
                        pts,
                        res,
                        k,
                    ),
            decreases sum_g(gmap@), frontier_view(queue).dom().len(),
        {
            proof {
                lemma_sum_g_nonneg(gmap@);
            }
            let ghost q_pre = frontier_view(queue);
            let popped = frontier_pop(&mut queue);
            match popped {
                None => {
                    proof {
                        assert forall|k: int|
                            0 <= k < gmap@.len() && (#[trigger] gmap@[k]) is Some implies
                            expanded_at(gmap@, pts, res, k) by {
                            assert(!frontier_view(queue).dom().contains(k as usize));
                        }
                    }
                    break;
                },
                Some((cur, _prio)) => {
                    if cur == snk {
                        break;
                    }
                    let ghost g0 = gmap@;
                    let ghost q0 = frontier_view(queue);
                    self.expand_node(&mut gmap, &mut queue, cur, src, snk);
                    proof {
                        lemma_within_idx_props(pts, pts[cur as int].location, res);
                        lemma_closure_step(
                            g0,
                            gmap@,
                            pts,
                            res,
                            q_pre,
                            q0,
                            frontier_view(queue),
                            cur as int,
                            within_idx_spec(pts, pts[cur as int].location, res),
                        );
                        lemma_sum_g_nonneg(gmap@);
                        if gmap@ == g0 {
                            assert(frontier_view(queue).dom() =~= q_pre.dom().remove(cur));
                        }
                    }
                },
            }
        }

        let has_sink = match gmap[snk] {
            Some(_) => true,
            None => false,
        };
        if !has_sink {
            proof {
                assert(!connected_spec(pts, res, src as int, snk as int)) by {
                    if connected_spec(pts, res, src as int, snk as int) {
                        let c = choose|c: Seq<int>|
                            is_chain(pts, res, c) && c[0] == src as int && c[c.len() - 1]
                                == snk as int;
                        lemma_chain_settled(gmap@, pts, res, c);
                    }
                }
            }
            return None;
        }

        // Walk the predecessors from the sink back to the source. Costs drop
        // by at least one on every step, so the walk terminates at the source
        // and never revisits a node.
        let mut rev: Vec<usize> = Vec::new();
        let mut cur: usize = snk;
        while cur != src
            invariant
                n == pts.len(),
                gmap@.len() == n,
                0 <= src < n,
                0 <= snk < n,
                0 <= cur < n,
                res == self.resolution as int,
                pts == self.index.points@,
                state_inv(gmap@, pts, src as int, res),
                gmap@[cur as int] is Some,
                rev@.len() == 0 ==> cur == snk,
                rev@.len() > 0 ==> rev@[0] == snk as int,
                forall|t: int| 0 <= t < rev@.len() ==> 0 <= #[trigger] rev@[t] < n,
                forall|t: int| 0 <= t < rev@.len() ==> gmap@[#[trigger] rev@[t] as int] is Some,
                forall|t: int, u: int|
                    0 <= t < u < rev@.len() ==> g_of(gmap@[#[trigger] rev@[u] as int]) < g_of(
                        gmap@[#[trigger] rev@[t] as int],
                    ),
                forall|t: int|
                    0 <= t < rev@.len() ==> g_of(gmap@[cur as int]) < g_of(
                        gmap@[#[trigger] rev@[t] as int],
                    ),
                rev@.len() > 0 ==> distance_spec(
                    pts[rev@[rev@.len() - 1] as int].location,
                    pts[cur as int].location,
                ) <= res,
                forall|t: int|
                    0 <= t < rev@.len() - 1 ==> distance_spec(
                        pts[#[trigger] rev@[t] as int].location,
                        pts[rev@[t + 1] as int].location,
                    ) <= res,
            decreases g_of(gmap@[cur as int]),
        {
            rev.push(cur);
            let p = match gmap[cur] {
                Some(pr) => pr.1,
                None => src,
            };
            cur = p;
        }
        rev.push(src);
        proof {
            assert forall|t: int, u: int|
                0 <= t < u < rev@.len() implies rev@[t] != rev@[u] by {
                if u < rev@.len() - 1 {
                    assert(g_of(gmap@[rev@[u] as int]) < g_of(gmap@[rev@[t] as int]));
                } else if t < rev@.len() - 1 {
                    assert(g_of(gmap@[rev@[t] as int]) > g_of(gmap@[src as int]));
                }
            }
        }

        let l = rev.len();
        let mut path: Vec<Bathymetry> = Vec::new();
        let mut t: usize = 0;
        while t < l
            invariant
                t <= l,
                l == rev@.len(),
                n == pts.len(),
                pts == self.index.points@,
                forall|u: int| 0 <= u < l ==> 0 <= #[trigger] rev@[u] < n,
                path@.len() == t,
                forall|u: int|
                    0 <= u < t ==> #[trigger] path@[u] == pts[rev@[l - 1 - u] as int],
            decreases l - t,
        {
            path.push(self.index.points[rev[l - 1 - t]]);
            t = t + 1;
        }
        proof {
            assert(path@[0] == pts[rev@[l - 1] as int]);
            assert(rev@[l - 1] == src as int);
            assert(path@[path@.len() - 1] == pts[rev@[0] as int]);
            assert(rev@[0] == snk as int);
            assert forall|i: int|
                #![trigger path@[i]]
                0 <= i < path@.len() implies exists|j: int|
                    0 <= j < pts.len() && pts[j] == path@[i] by {
                let j = rev@[l - 1 - i] as int;
                assert(0 <= j < pts.len() && pts[j] == path@[i]);
            }
            assert forall|i: int| 0 <= i < path@.len() - 1 implies distance_spec(
                (#[trigger] path@[i]).location,
                path@[i + 1].location,
            ) <= self.resolution as int by {
                let a = l - 1 - i;
                let b = l - 2 - i;
                assert(path@[i] == pts[rev@[a] as int]);
                assert(path@[i + 1] == pts[rev@[b] as int]);
                assert(distance_spec(
                    pts[rev@[b] as int].location,
                    pts[rev@[b + 1] as int].location,
                ) <= res);
                lemma_distance_symmetric(pts[rev@[a] as int].location, pts[rev@[b] as int].location);
            }
            // the walked indices, reversed, witness a connecting chain
            let c = Seq::new(l as nat, |i: int| rev@[l - 1 - i] as int);
            assert(is_chain(pts, res, c)) by {
                assert forall|i: int| 0 <= i < c.len() - 1 implies distance_spec(
                    pts[#[trigger] c[i]].location,
                    pts[c[i + 1]].location,
                ) <= res by {
                    let b = l - 2 - i;
                    assert(c[i] == rev@[b + 1] as int && c[i + 1] == rev@[b] as int);
                    assert(distance_spec(
                        pts[rev@[b] as int].location,
                        pts[rev@[b + 1] as int].location,
                    ) <= res);
                    lemma_distance_symmetric(
                        pts[rev@[b] as int].location,
                        pts[rev@[b + 1] as int].location,
                    );
                }
            }
            assert(c[0] == src as int && c[c.len() - 1] == snk as int);
            assert(connected_spec(pts, res, src as int, snk as int));
            if self.index.wf() {
                assert forall|i: int, j: int|
                    0 <= i < j < path@.len() implies (#[trigger] path@[i]).location != (
                    #[trigger] path@[j]).location by {
                    let a = rev@[l - 1 - i] as int;
                    let b = rev@[l - 1 - j] as int;
                    assert(rev@[l - 1 - j] != rev@[l - 1 - i]);
                    if a < b {
                        assert(pts[a].location != pts[b].location);
                    } else {
                        assert(pts[b].location != pts[a].location);
                    }
                }
            }
        }
        Some(path)
    }

    /// The sink step: every interior point is replaced with the deepest
    /// indexed sounding within its local search radius, and only a strictly
    /// deeper one displaces it. Path length and both endpoints are unchanged,
    /// and no point gets shallower.
    pub fn sink(&self, points: &Vec<Bathymetry>) -> (r: Vec<Bathymetry>)
        ensures
            r@.len() == points@.len(),
            points@.len() > 0 ==> r@[0] == points@[0] && r@[r@.len() - 1] == points@[points@.len()
                - 1],
            forall|i: int|
                0 < i < points@.len() - 1 ==> #[trigger] r@[i] == deepest_spec(
                    self.index.points@,
                    within_idx_spec(
                        self.index.points@,
                        points@[i].location,
                        sink_radius_spec(
                            points@[i - 1].location,
                            points@[i].location,
                            points@[i + 1].location,
                            self.resolution as int,
                        ),
                    ),
                    points@[i],
                ),
            forall|i: int| 0 <= i < points@.len() ==> (#[trigger] r@[i]).depth >= points@[i].depth,
            r@ == sink_spec(self.index.points@, points@, self.resolution as int),
    {
        let n = points.len();
        if n < 2 {
            let mut out: Vec<Bathymetry> = Vec::new();
            if n == 1 {
                out.push(points[0]);
            }
            proof {
                assert(out@ =~= sink_spec(self.index.points@, points@, self.resolution as int));
            }
            return out;
        }
        let mut out: Vec<Bathymetry> = Vec::new();
        out.push(points[0]);
        let mut i: usize = 1;
        while i < n - 1
            invariant
                1 <= i <= n - 1,
                2 <= n == points@.len(),
                out@.len() == i,
                out@[0] == points@[0],
                forall|t: int|
                    0 < t < i ==> #[trigger] out@[t] == deepest_spec(
                        self.index.points@,
                        within_idx_spec(
                            self.index.points@,
                            points@[t].location,
                            sink_radius_spec(
                                points@[t - 1].location,
                                points@[t].location,
                                points@[t + 1].location,
                                self.resolution as int,
                            ),
                        ),
                        points@[t],
                    ),
                forall|t: int| 0 <= t < i ==> (#[trigger] out@[t]).depth >= points@[t].depth,
            decreases n - i,
        {
            let prev = points[i - 1];
            let cur = points[i];
            let next = points[i + 1];
            let d1 = distance_mm(cur.location, prev.location);
            let d2 = distance_mm(cur.location, next.location);
            let d = if d1 < d2 {
                d1
            } else {
                d2
            };
            let mut radius = d / 2;
            if radius > self.resolution {
                radius = self.resolution;
            }
            let cands = self.index.within_radius_idx(cur.location, radius);
            let ghost cand_seq = within_idx_spec(
                self.index.points@,
                cur.location,
                radius as int,
            );
            proof {
                lemma_within_idx_props(self.index.points@, cur.location, radius as int);
                assert(cand_seq == cands@.map_values(|u: usize| u as int));
            }
            let mut best = cur;
            let m = cands.len();
            let mut k: usize = 0;
            while k < m
                invariant
                    k <= m,
                    m == cands@.len(),
                    cand_seq == cands@.map_values(|u: usize| u as int),
                    forall|t: int|
                        0 <= t < cand_seq.len() ==> 0 <= #[trigger] cand_seq[t]
                            < self.index.points@.len(),
                    best == deepest_spec(
                        self.index.points@,
                        cand_seq.subrange(0, k as int),
                        cur,
                    ),
                decreases m - k,
            {
                let ghost pre = cand_seq.subrange(0, k as int);
                let ghost curseq = cand_seq.subrange(0, k as int + 1);
                proof {
                    assert(curseq.drop_last() =~= pre);
                    assert(curseq.last() == cand_seq[k as int]);
                    assert(cand_seq[k as int] == cands@.map_values(|u: usize| u as int)[k as int]);
                }
                let cand = self.index.points[cands[k]];
                if best.depth < cand.depth {
                    best = cand;
                }
                k = k + 1;
            }
            proof {
                assert(cand_seq.subrange(0, m as int) =~= cand_seq);
                lemma_deepest_ge(self.index.points@, cand_seq, cur);
            }
            out.push(best);
            i = i + 1;
        }
        out.push(points[n - 1]);
        proof {
            assert(out@ =~= sink_spec(self.index.points@, points@, self.resolution as int));
        }
        out
    }

    /// The shrink step: drops interior points that crowd the last retained
    /// point and are shallower than it. Endpoints stay, no point is invented,
    /// and the path never grows.
    pub fn shrink(&self, points: &Vec<Bathymetry>) -> (r: Vec<Bathymetry>)
        ensures
            r@ == shrink_spec(points@, self.resolution as int / 2),
            is_subseq_of(r@, points@),
            r@.len() <= points@.len(),
            points@.len() > 0 ==> r@.len() >= 1 && r@[0] == points@[0] && r@[r@.len() - 1]
                == points@[points@.len() - 1],
    {
        let n = points.len();
        let half = self.resolution / 2;
        let ghost s = points@;
        let ghost h = self.resolution as int / 2;
        let mut out: Vec<Bathymetry> = Vec::new();
        if n == 0 {
            proof {
                assert(picks(out@, s, Seq::<int>::empty()));
            }
            return out;
        }
        out.push(points[0]);
        let ghost mut midx: Seq<int> = seq![0int];
        if n == 1 {
            proof {
                assert(out@ =~= shrink_spec(s, h));
                assert(picks(out@, s, midx));
                lemma_subseq_len(out@, s);
            }
            return out;
        }
        let mut kept = points[0];
        let mut i: usize = 1;
        proof {
            assert(out@ + shrink_mid_spec(s, 1, kept, h) + seq![s.last()] =~= shrink_spec(s, h));
        }
        while i < n - 1
            invariant
                1 <= i <= n - 1,
                2 <= n == s.len(),
                s == points@,
                h == self.resolution as int / 2,
                half == h,
                out@.len() >= 1,
                out@[0] == s[0],
                out@.last() == kept,
                picks(out@, s, midx),
                midx.last() < i,
                shrink_spec(s, h) == out@ + shrink_mid_spec(s, i as int, kept, h) + seq![
                    s.last(),
                ],
            decreases n - i,
        {
            let d = distance_mm(points[i].location, kept.location);
            if d < half && kept.depth > points[i].depth {
                proof {
                    assert(shrink_mid_spec(s, i as int, kept, h) == shrink_mid_spec(
                        s,
                        i as int + 1,
                        kept,
                        h,
                    ));
                }
            } else {
                out.push(points[i]);
                proof {
                    midx = midx.push(i as int);
                    assert(picks(out@, s, midx));
                    assert((out@.drop_last() + (seq![s[i as int]] + shrink_mid_spec(
                        s,
                        i as int + 1,
                        s[i as int],
                        h,
                    )) + seq![s.last()]) =~= (out@ + shrink_mid_spec(s, i as int + 1, s[i as int], h)
                        + seq![s.last()]));
                }
                kept = points[i];
            }
            i = i + 1;
        }
        out.push(points[n - 1]);
        proof {
            midx = midx.push(n - 1);
            assert(picks(out@, s, midx));
            lemma_subseq_len(out@, s);
            assert(shrink_mid_spec(s, n - 1, kept, h) == Seq::<Bathymetry>::empty());
            assert(out@ =~= out@.drop_last() + shrink_mid_spec(s, n - 1, kept, h) + seq![s.last()]);
        }
        out
    }

    /// A midpoint of two quantized points, truncating toward zero.
    fn mid_point(a: Point, b: Point) -> (r: Point)
        ensures
            r == mid_point_spec(a, b),
    {
        let sx = (a.0 as i128) + (b.0 as i128);
        let sy = (a.1 as i128) + (b.1 as i128);
        proof {
            lemma_half_in_range(sx as int);
            lemma_half_in_range(sy as int);
        }
        let hx = if sx >= 0 {
            sx / 2
        } else {
            0 - ((0 - sx) / 2)
        };
        let hy = if sy >= 0 {
            sy / 2
        } else {
            0 - ((0 - sy) / 2)
        };
        (hx as i64, hy as i64)
    }

    /// The densification step: between every consecutive pair the indexed
    /// sounding nearest the pair's midpoint is inserted, and runs of points
    /// at one location are then collapsed to their first sounding. Paths of
    /// fewer than two points come back unchanged.
    pub fn with_midpoints(&self, points: &Vec<Bathymetry>) -> (r: Vec<Bathymetry>)
        ensures
            r@ == with_midpoints_spec(self.index.points@, points@),
    {
        let n = points.len();
        let ghost s = points@;
        let ghost idx = self.index.points@;
        if n < 2 {
            let mut raw: Vec<Bathymetry> = Vec::new();
            if n == 1 {
                raw.push(points[0]);
                proof {
                    assert(raw@ =~= s);
                }
            } else {
                proof {
                    assert(raw@ =~= s);
                }
            }
            return Self::dedup_adjacent(raw);
        }
        let mut raw: Vec<Bathymetry> = Vec::new();
        let mut i: usize = 0;
        proof {
            assert(raw@ =~= midpoints_raw_spec(idx, s.subrange(0, 1)));
        }
        while i < n - 1
            invariant
                0 <= i <= n - 1,
                2 <= n == s.len(),
                s == points@,
                idx == self.index.points@,
                raw@ == midpoints_raw_spec(idx, s.subrange(0, i as int + 1)),
            decreases n - i,
        {
            let ghost prefix = s.subrange(0, i as int + 2);
            proof {
                assert(prefix.drop_last() =~= s.subrange(0, i as int + 1));
                assert(prefix[prefix.len() - 2] == s[i as int]);
                assert(prefix[prefix.len() - 1] == s[i as int + 1]);
            }
            let a = points[i];
            let b = points[i + 1];
            raw.push(a);
            let mid = Self::mid_point(a.location, b.location);
            match self.index.nearest_idx(mid) {
                Some(nj) => {
                    raw.push(self.index.points[nj]);
                },
                None => {},
            }
            raw.push(b);
            proof {
                assert(raw@ =~= midpoints_raw_spec(idx, prefix));
            }
            i = i + 1;
        }
        proof {
            assert(s.subrange(0, n as int) =~= s);
        }
        Self::dedup_adjacent(raw)
    }

    /// The densification step under the name the design documents use.
    pub fn add_midpoints(&self, points: &Vec<Bathymetry>) -> (r: Vec<Bathymetry>)
        ensures
            r@ == with_midpoints_spec(self.index.points@, points@),
    {
        self.with_midpoints(points)
    }

    /// Interpolation inside one leg.
    fn lerp(a: Point, b: Point, t: u128, d: u128) -> (r: Point)
        requires
            t <= d,
            d <= 20015114443,
        ensures
            r == lerp_spec(a, b, t as int, d as int),
    {
        if d == 0 {
            return a;
        }
        let dx = (b.0 as i128) - (a.0 as i128);
        let dy = (b.1 as i128) - (a.1 as i128);
        let ox = Self::scale_delta(dx, t as i128, d as i128);
        let oy = Self::scale_delta(dy, t as i128, d as i128);
        (((a.0 as i128) + ox) as i64, ((a.1 as i128) + oy) as i64)
    }

    /// `x * t / d` truncated toward zero; no larger in magnitude than `x`.
    fn scale_delta(x: i128, t: i128, d: i128) -> (r: i128)
        requires
            0 <= t <= d,
            0 < d <= 20015114443,
            -36893488147419103232 <= x <= 36893488147419103232,
        ensures
            r == tdiv_spec(x as int * t as int, d as int),
            x >= 0 ==> 0 <= r <= x,
            x < 0 ==> x <= r <= 0,
    {
        proof {
            lemma_scale_delta(x as int, t as int, d as int);
        }
        let p = x * t;
        if p >= 0 {
            p / d
        } else {
            0 - ((0 - p) / d)
        }
    }

    /// The point at arc position `t` along the path.
    fn point_along(&self, points: &Vec<Bathymetry>, t: u128) -> (p: Point)
        requires
            points@.len() >= 1,
        ensures
            p == interp_at_spec(points@, t as int),
    {
        let n = points.len();
        let mut j: usize = 0;
        let mut rem = t;
        proof {
            assert(points@.subrange(0, n as int) =~= points@);
        }
        while j < n - 1
            invariant
                0 <= j <= n - 1,
                1 <= n == points@.len(),
                interp_at_spec(points@, t as int) == interp_at_spec(
                    points@.subrange(j as int, n as int),
                    rem as int,
                ),
            decreases n - j,
        {
            let ghost tail = points@.subrange(j as int, n as int);
            proof {
                assert(tail[0] == points@[j as int]);
                assert(tail[1] == points@[j as int + 1]);
            }
            let d = distance_mm(points[j].location, points[j + 1].location) as u128;
            if rem <= d {
                let r = Self::lerp(points[j].location, points[j + 1].location, rem, d as u64 as u128);
                return r;
            }
            proof {
                assert(tail.drop_first() =~= points@.subrange(j as int + 1, n as int));
            }
            rem = rem - d;
            j = j + 1;
        }
        proof {
            let tail = points@.subrange(n as int - 1, n as int);
            assert(tail.len() == 1 && tail[0] == points@[n - 1]);
        }
        points[n - 1].location
    }

    /// The resampling step: the path is cut into `ceil(length / resolution)`
    /// equal arc spans, and every span boundary is interpolated along the
    /// path and snapped to the nearest indexed sounding, skipping immediate
    /// duplicates. No point outside the index is ever produced. Short paths
    /// and an empty index come back unchanged, as do paths of absurd length.
    pub fn populate(&self, points: &Vec<Bathymetry>) -> (r: Vec<Bathymetry>)
        requires
            self.resolution >= 1,
        ensures
            r@ == populate_spec(self.index.points@, points@, self.resolution as int),
    {
        let n = points.len();
        let ghost s = points@;
        let ghost idx = self.index.points@;
        let ghost res = self.resolution as int;
        if n < 2 || self.index.len() == 0 {
            return Self::copy_path(points);
        }
        let mut total: u128 = 0;
        let mut i: usize = 0;
        while i < n - 1
            invariant
                0 <= i <= n - 1,
                2 <= n == s.len(),
                s == points@,
                total == total_len_spec(s.subrange(0, i as int + 1)),
                total <= i * 20015114443,
            decreases n - i,
        {
            let ghost prefix = s.subrange(0, i as int + 2);
            proof {
                assert(prefix.drop_last() =~= s.subrange(0, i as int + 1));
                assert(prefix[prefix.len() - 2] == s[i as int]);
                assert(prefix[prefix.len() - 1] == s[i as int + 1]);
                assert((i + 1) * 20015114443 == i * 20015114443 + 20015114443)
                    by (nonlinear_arith);
            }
            let d = distance_mm(points[i].location, points[i + 1].location);
            total = total + (d as u128);
            i = i + 1;
        }
        proof {
            assert(s.subrange(0, n as int) =~= s);
        }
        if total == 0 {
            let mut out: Vec<Bathymetry> = Vec::new();
            match self.index.nearest_idx(points[0].location) {
                Some(j) => {
                    out.push(self.index.points[j]);
                },
                None => {},
            }
            proof {
                assert(out@ =~= populate_spec(idx, s, res));
            }
            return out;
        }
        if total > 0x7fff_ffff_ffff_ffff {
            return Self::copy_path(points);
        }
        let chunks = (total + (self.resolution as u128) - 1) / (self.resolution as u128);
        let ghost boundaries = populate_raw_spec(idx, s, total as int, chunks as int);
        proof {
            vstd::arithmetic::div_mod::lemma_div_is_ordered(res, total as int + res - 1, res);
            vstd::arithmetic::div_mod::lemma_div_basics(res);
            assert(total as int + res - 1 <= total as int * res) by (nonlinear_arith)
                requires
                    1 <= total as int,
                    1 <= res,
            ;
            vstd::arithmetic::div_mod::lemma_div_is_ordered(
                total as int + res - 1,
                total as int * res,
                res,
            );
            vstd::arithmetic::div_mod::lemma_div_multiples_vanish(total as int, res);
            assert(res * total as int == total as int * res);
        }
        let mut raw: Vec<Bathymetry> = Vec::new();
        let mut k: u128 = 0;
        while k <= chunks
            invariant
                0 <= k <= chunks + 1,
                2 <= n == s.len(),
                s == points@,
                idx == self.index.points@,
                idx.len() > 0,
                res == self.resolution as int,
                1 <= chunks <= 0x7fff_ffff_ffff_ffff,
                chunks as int == (total as int + res - 1) / res,
                total as int == total_len_spec(s),
                0 < total <= 0x7fff_ffff_ffff_ffff,
                boundaries == populate_raw_spec(idx, s, total as int, chunks as int),
                raw@ == boundaries.subrange(0, k as int),
            decreases chunks + 1 - k,
        {
            proof {
                assert(k * total <= chunks * total) by (nonlinear_arith)
                    requires
                        0 <= k <= chunks,
                        0 < total,
                ;
                assert(chunks * total <= 0x7fff_ffff_ffff_ffff * 0x7fff_ffff_ffff_ffff)
                    by (nonlinear_arith)
                    requires
                        0 < chunks <= 0x7fff_ffff_ffff_ffff,
                        0 < total <= 0x7fff_ffff_ffff_ffff,
                ;
            }
            let tk = (k * total) / chunks;
            let p = self.point_along(points, tk);
            let snapped = match self.index.nearest_idx(p) {
                Some(j) => self.index.points[j],
                None => points[0],
            };
            raw.push(snapped);
            proof {
                assert(boundaries[k as int] == snapped);
                assert(raw@ =~= boundaries.subrange(0, k as int + 1));
            }
            k = k + 1;
        }
        proof {
            assert(boundaries.subrange(0, chunks as int + 1) =~= boundaries);
        }
        Self::dedup_adjacent(raw)
    }

    /// An unchanged copy of a path.
    fn copy_path(points: &Vec<Bathymetry>) -> (r: Vec<Bathymetry>)
        ensures
            r@ == points@,
    {
        let n = points.len();
        let mut out: Vec<Bathymetry> = Vec::new();
        let mut i: usize = 0;
        while i < n
            invariant
                i <= n,
                n == points@.len(),
                out@ == points@.subrange(0, i as int),
            decreases n - i,
        {
            out.push(points[i]);
            proof {
                assert(out@ =~= points@.subrange(0, i as int + 1));
            }
            i = i + 1;
        }
        proof {
            assert(points@.subrange(0, n as int) =~= points@);
        }
        out
    }

    /// Ingests an externally supplied coordinate sequence: every point is
    /// snapped to its nearest indexed sounding, recovering depths along the
    /// route. Empty when the index is empty.
    pub fn from_path(&self, points: &Vec<Point>) -> (r: Vec<Bathymetry>)
        ensures
            self.index.points@.len() == 0 ==> r@.len() == 0,
            self.index.points@.len() > 0 ==> {
                &&& r@.len() == points@.len()
                &&& forall|i: int|
                    0 <= i < points@.len() ==> #[trigger] r@[i] == self.index.points@[nearest_idx_spec(self.index.points@, points@[i])]
            },
    {
        let n = points.len();
        let mut out: Vec<Bathymetry> = Vec::new();
        if self.index.len() == 0 {
            return out;
        }
        let mut i: usize = 0;
        while i < n
            invariant
                i <= n,
                n == points@.len(),
                self.index.points@.len() > 0,
                out@.len() == i,
                forall|t: int|
                    0 <= t < i ==> #[trigger] out@[t] == self.index.points@[nearest_idx_spec(self.index.points@, points@[t])],
            decreases n - i,
        {
            match self.index.nearest_idx(points[i]) {
                Some(j) => {
                    out.push(self.index.points[j]);
                },
                None => {},
            }
            i = i + 1;
        }
        out
    }

    /// Whether two paths visit the same locations in the same order.
    fn paths_equal(a: &Vec<Bathymetry>, b: &Vec<Bathymetry>) -> (r: bool)
        ensures
            r == same_path(a@, b@),
    {
        let n = a.len();
        if n != b.len() {
            return false;
        }
        let mut i: usize = 0;
        while i < n
            invariant
                i <= n,
                n == a@.len() && n == b@.len(),
                forall|t: int| 0 <= t < i ==> (#[trigger] a@[t]).location == b@[t].location,
            decreases n - i,
        {
            if !(a[i].location.0 == b[i].location.0 && a[i].location.1 == b[i].location.1) {
                return false;
            }
            i = i + 1;
        }
        true
    }

    /// Whether the simplification keeps a middle point.
    fn keeps_point(kept: &Bathymetry, cur: &Bathymetry, next: &Bathymetry) -> (r: bool)
        ensures
            r == simplify_keeps(*kept, *cur, *next),
    {
        if !Self::in_range(kept.location) || !Self::in_range(cur.location) || !Self::in_range(
            next.location,
        ) {
            return true;
        }
        let a = kept.location;
        let b = cur.location;
        let c = next.location;
        proof {
            assert forall|x: int, y: int|
                -2000000000 <= x <= 2000000000 && -2000000000 <= y <= 2000000000
                    implies -4000000000000000000 <= #[trigger] (x * y) <= 4000000000000000000 by {
                lemma_product_range(x, y);
            }
        }
        let cross = ((b.0 as i128) - (a.0 as i128)) * ((c.1 as i128) - (a.1 as i128)) - ((b.1
            as i128) - (a.1 as i128)) * ((c.0 as i128) - (a.0 as i128));
        let area2 = if cross < 0 {
            0 - cross
        } else {
            cross
        };
        area2 >= 6173
    }

    /// Whether a point lies in the supported coordinate range.
    fn in_range(p: Point) -> (r: bool)
        ensures
            r == coord_in_range(p),
    {
        -1000000000 <= p.0 && p.0 <= 1000000000 && -1000000000 <= p.1 && p.1 <= 1000000000
    }

    /// The simplification step: one area-based pass over the interior, then
    /// every surviving vertex snapped to its nearest indexed sounding.
    pub fn simplify(&self, points: &Vec<Bathymetry>) -> (r: Vec<Bathymetry>)
        ensures
            r@ == simplify_spec(self.index.points@, points@),
    {
        let n = points.len();
        let ghost s = points@;
        let ghost idx = self.index.points@;
        if n < 2 {
            return Self::copy_path(points);
        }
        let mut base: Vec<Bathymetry> = Vec::new();
        base.push(points[0]);
        let mut kept = points[0];
        let mut i: usize = 1;
        while i < n - 1
            invariant
                1 <= i <= n - 1,
                2 <= n == s.len(),
                s == points@,
                base@.len() >= 1,
                seq![s[0]] + simplify_mid_spec(s, 1, s[0]) + seq![s.last()] == base@
                    + simplify_mid_spec(s, i as int, kept) + seq![s.last()],
            decreases n - i,
        {
            if Self::keeps_point(&kept, &points[i], &points[i + 1]) {
                base.push(points[i]);
                proof {
                    assert((base@.drop_last() + (seq![s[i as int]] + simplify_mid_spec(
                        s,
                        i as int + 1,
                        s[i as int],
                    )) + seq![s.last()]) =~= (base@ + simplify_mid_spec(s, i as int + 1, s[i as int])
                        + seq![s.last()]));
                }
                kept = points[i];
            } else {
                proof {
                    assert(simplify_mid_spec(s, i as int, kept) == simplify_mid_spec(
                        s,
                        i as int + 1,
                        kept,
                    ));
                }
            }
            i = i + 1;
        }
        base.push(points[n - 1]);
        proof {
            assert(simplify_mid_spec(s, n - 1, kept) == Seq::<Bathymetry>::empty());
            assert(base@ =~= base@.drop_last() + simplify_mid_spec(s, n - 1, kept) + seq![
                s.last(),
            ]);
            assert(base@ == seq![s[0]] + simplify_mid_spec(s, 1, s[0]) + seq![s.last()]);
        }
        if self.index.len() == 0 {
            proof {
                assert(snap_all_spec(idx, base@) == base@);
            }
            return base;
        }
        let m = base.len();
        let mut out: Vec<Bathymetry> = Vec::new();
        let mut t: usize = 0;
        while t < m
            invariant
                t <= m,
                m == base@.len(),
                idx == self.index.points@,
                idx.len() > 0,
                out@.len() == t,
                forall|u: int|
                    0 <= u < t ==> #[trigger] out@[u] == idx[nearest_idx_spec(
                        idx,
                        base@[u].location,
                    )],
            decreases m - t,
        {
            match self.index.nearest_idx(base[t].location) {
                Some(j) => {
                    out.push(self.index.points[j]);
                },
                None => {},
            }
            t = t + 1;
        }
        proof {
            assert(out@ =~= snap_all_spec(idx, base@));
        }
        out
    }

    /// The refinement loop: densify once, then sink to a fixed point,
    /// shrinking between rounds; a bounded number of rounds guarantees
    /// termination, and the path of the last round comes back when the
    /// fixed point was not reached. The fixed point is simplified when
    /// asked. `improve_status` says whether the fixed point was reached.
    pub fn improve(&self, path: &Vec<Bathymetry>, simplify: bool) -> (r: Vec<Bathymetry>)
        ensures
            r@ == improve_spec(
                self.index.points@,
                with_midpoints_spec(self.index.points@, path@),
                self.resolution as int,
                64,
                simplify,
            ),
    {
        let (out, _converged) = self.improve_status(path, simplify);
        out
    }

    /// The refinement loop, also telling whether the sink fixed point was
    /// reached within the round cap: when it was and no simplification was
    /// asked for, the returned path is its own sink.
    pub fn improve_status(&self, path: &Vec<Bathymetry>, simplify: bool) -> (r: (
        Vec<Bathymetry>,
        bool,
    ))
        ensures
            r.0@ == improve_spec(
                self.index.points@,
                with_midpoints_spec(self.index.points@, path@),
                self.resolution as int,
                64,
                simplify,
            ),
            r.1 == improve_converges_spec(
                self.index.points@,
                with_midpoints_spec(self.index.points@, path@),
                self.resolution as int,
                64,
            ),
            r.1 && !simplify ==> same_path(
                sink_spec(self.index.points@, r.0@, self.resolution as int),
                r.0@,
            ),
    {
        let ghost idx = self.index.points@;
        let ghost res = self.resolution as int;
        let ghost mid = with_midpoints_spec(idx, path@);
        let ghost goal = improve_spec(idx, mid, res, 64, simplify);
        let ghost cgoal = improve_converges_spec(idx, mid, res, 64);
        let mut current = self.with_midpoints(path);
        let mut fuel: u64 = 64;
        while fuel > 0
            invariant
                idx == self.index.points@,
                res == self.resolution as int,
                mid == with_midpoints_spec(idx, path@),
                goal == improve_spec(idx, mid, res, 64, simplify),
                cgoal == improve_converges_spec(idx, mid, res, 64),
                improve_spec(idx, current@, res, fuel as int, simplify) == goal,
                improve_converges_spec(idx, current@, res, fuel as int) == cgoal,
            decreases fuel,
        {
            let stepped = self.sink(&current);
            if Self::paths_equal(&stepped, &current) {
                if simplify {
                    return (self.simplify(&current), true);
                } else {
                    return (current, true);
                }
            }
            current = self.shrink(&stepped);
            fuel = fuel - 1;
        }
        (current, false)
    }

    /// Collapses each run of soundings at one location to its first member.
    fn dedup_adjacent(input: Vec<Bathymetry>) -> (r: Vec<Bathymetry>)
        ensures
            r@ == dedup_adj_spec(input@),
    {
        let n = input.len();
        let mut out: Vec<Bathymetry> = Vec::new();
        let mut i: usize = 0;
        while i < n
            invariant
                i <= n,
                n == input@.len(),
                out@ == dedup_adj_spec(input@.subrange(0, i as int)),
            decreases n - i,
        {
            let ghost prefix = input@.subrange(0, i as int + 1);
            proof {
                assert(prefix.drop_last() =~= input@.subrange(0, i as int));
                assert(prefix.last() == input@[i as int]);
            }
            let keep = if out.len() == 0 {
                true
            } else {
                let last = out[out.len() - 1];
                !(last.location.0 == input[i].location.0 && last.location.1
                    == input[i].location.1)
            };
            if keep {
                out.push(input[i]);
            }
            i = i + 1;
        }
        proof {
            assert(input@.subrange(0, n as int) =~= input@);
        }
        out
    }
}

/// A fraction `t / d` of a coordinate difference keeps its magnitude.
proof fn lemma_scale_delta(x: int, t: int, d: int)
    requires
        0 <= t <= d,
        0 < d <= 20015114443,
        -36893488147419103232 <= x <= 36893488147419103232,
    ensures
        -738427387472057406272911179776 <= x * t <= 738427387472057406272911179776,
        x >= 0 ==> 0 <= x * t && 0 <= (x * t) / d <= x,
        x < 0 ==> x * t <= 0 && 0 <= ((0 - x) * t) / d <= 0 - x,
        x < 0 ==> 0 - (x * t) == (0 - x) * t,
{
    assert(-738427387472057406272911179776 <= x * t <= 738427387472057406272911179776)
        by (nonlinear_arith)
        requires
            0 <= t <= 20015114443,
            -36893488147419103232 <= x <= 36893488147419103232,
    ;
    if x >= 0 {
        lemma_mul_nonnegative(x, t);
        lemma_mul_inequality(t, d, x);
        assert(x * t == t * x && x * d == d * x);
        vstd::arithmetic::div_mod::lemma_div_pos_is_pos(x * t, d);
        vstd::arithmetic::div_mod::lemma_div_is_ordered(x * t, x * d, d);
        vstd::arithmetic::div_mod::lemma_div_multiples_vanish(x, d);
        assert(d * x == x * d);
    } else {
        let y = 0 - x;
        lemma_mul_nonnegative(y, t);
        lemma_mul_inequality(t, d, y);
        assert(y * t == t * y && y * d == d * y);
        vstd::arithmetic::div_mod::lemma_div_pos_is_pos(y * t, d);
        vstd::arithmetic::div_mod::lemma_div_is_ordered(y * t, y * d, d);
        vstd::arithmetic::div_mod::lemma_div_multiples_vanish(y, d);
        assert(d * y == y * d);
        assert(0 - (x * t) == (0 - x) * t) by (nonlinear_arith);
        assert(x * t <= 0) by (nonlinear_arith)
            requires
                x < 0,
                t >= 0,
        ;
    }
}

/// The product of two bounded coordinate differences stays bounded.
proof fn lemma_product_range(x: int, y: int)
    requires
        -2000000000 <= x <= 2000000000,
        -2000000000 <= y <= 2000000000,
    ensures
        -4000000000000000000 <= x * y <= 4000000000000000000,
{
    assert(-4000000000000000000 <= x * y <= 4000000000000000000) by (nonlinear_arith)
        requires
            -2000000000 <= x <= 2000000000,
            -2000000000 <= y <= 2000000000,
    ;
}

/// Half of the sum of two quantized coordinates stays a coordinate.
proof fn lemma_half_in_range(sx: int)
    requires
        -18446744073709551616 <= sx <= 18446744073709551614,
    ensures
        sx >= 0 ==> 0 <= sx / 2 <= 9223372036854775807,
        sx < 0 ==> 0 <= (0 - sx) / 2 <= 9223372036854775808,
{
    if sx >= 0 {
        vstd::arithmetic::div_mod::lemma_div_pos_is_pos(sx, 2);
        vstd::arithmetic::div_mod::lemma_div_is_ordered(sx, 18446744073709551614, 2);
        assert(18446744073709551614int / 2 == 9223372036854775807);
    } else {
        vstd::arithmetic::div_mod::lemma_div_pos_is_pos(0 - sx, 2);
        vstd::arithmetic::div_mod::lemma_div_is_ordered(0 - sx, 18446744073709551616, 2);
        assert(18446744073709551616int / 2 == 9223372036854775808);
    }
}

/// A midpoint of two quantized points, each coordinate the half of the sum
/// truncated toward zero.
pub open spec fn mid_point_spec(a: Point, b: Point) -> Point {
    let sx = a.0 + b.0;
    let sy = a.1 + b.1;
    let hx = if sx >= 0 {
        sx / 2
    } else {
        0 - ((0 - sx) / 2)
    };
    let hy = if sy >= 0 {
        sy / 2
    } else {
        0 - ((0 - sy) / 2)
    };
    (hx as i64, hy as i64)
}

/// What one consecutive pair contributes to the densified path: the pair
/// itself around the indexed sounding nearest their midpoint, when the index
/// has one.
pub open spec fn midpoint_window_spec(idx: Seq<Bathymetry>, a: Bathymetry, b: Bathymetry)
    -> Seq<Bathymetry> {
    if idx.len() == 0 {
        seq![a] + seq![b]
    } else {
        seq![a] + seq![idx[nearest_idx_spec(idx, mid_point_spec(a.location, b.location))]] + seq![
            b,
        ]
    }
}

/// The densified path before duplicate removal, window by window.
pub open spec fn midpoints_raw_spec(idx: Seq<Bathymetry>, s: Seq<Bathymetry>) -> Seq<Bathymetry>
    decreases s.len(),
{
    if s.len() < 2 {
        Seq::empty()
    } else {
        midpoints_raw_spec(idx, s.drop_last()) + midpoint_window_spec(
            idx,
            s[s.len() - 2],
            s[s.len() - 1],
        )
    }
}

/// A sequence with each run of same-location soundings collapsed to its
/// first member.
pub open spec fn dedup_adj_spec(s: Seq<Bathymetry>) -> Seq<Bathymetry>
    decreases s.len(),
{
    if s.len() == 0 {
        Seq::empty()
    } else {
        let pre = dedup_adj_spec(s.drop_last());
        if pre.len() > 0 && crate::bathymetry::same_location(pre.last(), s.last()) {
            pre
        } else {
            pre.push(s.last())
        }
    }
}

/// The whole densification step: midpoints inserted between consecutive
/// pairs, then adjacent duplicates collapsed; short paths come back as they
/// are.
pub open spec fn with_midpoints_spec(idx: Seq<Bathymetry>, s: Seq<Bathymetry>) -> Seq<Bathymetry> {
    if s.len() < 2 {
        dedup_adj_spec(s)
    } else {
        dedup_adj_spec(midpoints_raw_spec(idx, s))
    }
}

/// Truncating division of a possibly negative numerator by a positive one.
pub open spec fn tdiv_spec(x: int, d: int) -> int {
    if x >= 0 {
        x / d
    } else {
        0 - ((0 - x) / d)
    }
}

/// The point a fraction `t / d` of the way from `a` to `b`, coordinate-wise,
/// truncating toward zero; `a` itself on a zero-length leg.
pub open spec fn lerp_spec(a: Point, b: Point, t: int, d: int) -> Point {
    if d <= 0 {
        a
    } else {
        (
            (a.0 + tdiv_spec((b.0 - a.0) * t, d)) as i64,
            (a.1 + tdiv_spec((b.1 - a.1) * t, d)) as i64,
        )
    }
}

/// The total great-circle length of a path, leg by leg.
pub open spec fn total_len_spec(s: Seq<Bathymetry>) -> int
    decreases s.len(),
{
    if s.len() <= 1 {
        0
    } else {
        total_len_spec(s.drop_last()) + distance_spec(
            s[s.len() - 2].location,
            s[s.len() - 1].location,
        )
    }
}

/// The point at arc position `t` along the path: walked leg by leg and
/// interpolated inside the leg the position falls in.
pub open spec fn interp_at_spec(s: Seq<Bathymetry>, t: int) -> Point
    decreases s.len(),
{
    if s.len() == 0 {
        (0int as i64, 0int as i64)
    } else if s.len() == 1 {
        s[0].location
    } else {
        let d = distance_spec(s[0].location, s[1].location);
        if t <= d {
            lerp_spec(s[0].location, s[1].location, t, d)
        } else {
            interp_at_spec(s.drop_first(), t - d)
        }
    }
}

/// Every path point snapped to its nearest indexed sounding; unchanged when
/// the index is empty.
pub open spec fn snap_all_spec(idx: Seq<Bathymetry>, s: Seq<Bathymetry>) -> Seq<Bathymetry> {
    if idx.len() == 0 {
        s
    } else {
        s.map_values(|p: Bathymetry| idx[nearest_idx_spec(idx, p.location)])
    }
}

/// The chunk boundaries of the resampling step, before duplicate removal:
/// `chunks + 1` evenly spaced arc positions, each interpolated and snapped.
pub open spec fn populate_raw_spec(
    idx: Seq<Bathymetry>,
    s: Seq<Bathymetry>,
    total: int,
    chunks: int,
) -> Seq<Bathymetry> {
    Seq::new(
        (chunks + 1) as nat,
        |k: int| idx[nearest_idx_spec(idx, interp_at_spec(s, k * total / chunks))],
    )
}

/// The resampling step: the path length is cut into `ceil(length /
/// resolution)` chunks and every boundary is snapped to the index, skipping
/// immediate duplicates. Short paths and an empty index come back unchanged.
pub open spec fn populate_spec(idx: Seq<Bathymetry>, s: Seq<Bathymetry>, res: int)
    -> Seq<Bathymetry> {
    if s.len() < 2 || idx.len() == 0 {
        s
    } else {
        let total = total_len_spec(s);
        if total == 0 {
            seq![idx[nearest_idx_spec(idx, s[0].location)]]
        } else if total > 0x7fff_ffff_ffff_ffff {
            s
        } else {
            let chunks = (total + res - 1) / res;
            dedup_adj_spec(populate_raw_spec(idx, s, total, chunks))
        }
    }
}

/// Whether a point lies in the geographically meaningful coordinate range
/// that the simplification arithmetic accepts.
pub open spec fn coord_in_range(p: Point) -> bool {
    -1000000000 <= p.0 <= 1000000000 && -1000000000 <= p.1 <= 1000000000
}

/// Twice the area of the triangle of three points, in square microdegrees.
pub open spec fn area2_spec(a: Point, b: Point, c: Point) -> int {
    let cross = (b.0 - a.0) * (c.1 - a.1) - (b.1 - a.1) * (c.0 - a.0);
    if cross < 0 {
        0 - cross
    } else {
        cross
    }
}

/// Whether the simplification keeps the middle point: always outside the
/// supported coordinate range, otherwise when the triangle against the last
/// kept point and the original successor is at least the tolerance.
pub open spec fn simplify_keeps(kept: Bathymetry, cur: Bathymetry, next: Bathymetry) -> bool {
    if !coord_in_range(kept.location) || !coord_in_range(cur.location) || !coord_in_range(
        next.location,
    ) {
        true
    } else {
        area2_spec(kept.location, cur.location, next.location) >= 6173
    }
}

/// The interior of the simplification pass from `i` on, with `kept` the last
/// retained sounding.
pub open spec fn simplify_mid_spec(s: Seq<Bathymetry>, i: int, kept: Bathymetry)
    -> Seq<Bathymetry>
    decreases s.len() - i,
{
    if i < 0 || i >= s.len() - 1 {
        Seq::empty()
    } else if simplify_keeps(kept, s[i], s[i + 1]) {
        seq![s[i]] + simplify_mid_spec(s, i + 1, s[i])
    } else {
        simplify_mid_spec(s, i + 1, kept)
    }
}

/// The simplification step: one pass that drops interior points whose
/// triangle against the retained predecessor and the original successor
/// falls under a tolerance of about one eighteen-thousandth of a degree,
/// then every surviving vertex snapped to its nearest indexed sounding.
pub open spec fn simplify_spec(idx: Seq<Bathymetry>, s: Seq<Bathymetry>) -> Seq<Bathymetry> {
    if s.len() < 2 {
        s
    } else {
        snap_all_spec(idx, seq![s[0]] + simplify_mid_spec(s, 1, s[0]) + seq![s.last()])
    }
}

/// Whether two paths visit the same locations in the same order.
pub open spec fn same_path(a: Seq<Bathymetry>, b: Seq<Bathymetry>) -> bool {
    a.len() == b.len() && forall|i: int|
        0 <= i < a.len() ==> (#[trigger] a[i]).location == b[i].location
}

/// The sink step as one function of the path.
pub open spec fn sink_spec(idx: Seq<Bathymetry>, s: Seq<Bathymetry>, res: int)
    -> Seq<Bathymetry> {
    Seq::new(
        s.len(),
        |i: int|
            if i == 0 || i == s.len() - 1 {
                s[i]
            } else {
                deepest_spec(
                    idx,
                    within_idx_spec(
                        idx,
                        s[i].location,
                        sink_radius_spec(
                            s[i - 1].location,
                            s[i].location,
                            s[i + 1].location,
                            res,
                        ),
                    ),
                    s[i],
                )
            },
    )
}

/// Collapsing runs of duplicates never brings in a new sounding.
proof fn lemma_dedup_adj_membership(s: Seq<Bathymetry>, t: int)
    requires
        0 <= t < dedup_adj_spec(s).len(),
    ensures
        s.contains(dedup_adj_spec(s)[t]),
    decreases s.len(),
{
    if s.len() > 0 {
        let pre = dedup_adj_spec(s.drop_last());
        if pre.len() > 0 && crate::bathymetry::same_location(pre.last(), s.last()) {
            lemma_dedup_adj_membership(s.drop_last(), t);
            let u = choose|u: int| 0 <= u < s.len() - 1 && s.drop_last()[u] == pre[t];
            assert(s[u] == dedup_adj_spec(s)[t]);
        } else {
            if t < pre.len() {
                lemma_dedup_adj_membership(s.drop_last(), t);
                let u = choose|u: int| 0 <= u < s.len() - 1 && s.drop_last()[u] == pre[t];
                assert(s[u] == dedup_adj_spec(s)[t]);
            } else {
                assert(s[s.len() - 1] == dedup_adj_spec(s)[t]);
            }
        }
    }
}

/// The resampling step invents no soundings: on a path of at least two
/// points over a non-empty index, every point it returns is an indexed
/// sounding — so long as the path's total length is within the supported
/// range, where the step does resample rather than hand the path back.
pub proof fn lemma_populate_points_from_index(
    idx: Seq<Bathymetry>,
    s: Seq<Bathymetry>,
    res: int,
    t: int,
)
    requires
        s.len() >= 2,
        idx.len() > 0,
        res >= 1,
        total_len_spec(s) <= 0x7fff_ffff_ffff_ffff,
        0 <= t < populate_spec(idx, s, res).len(),
    ensures
        idx.contains(populate_spec(idx, s, res)[t]),
{
    let total = total_len_spec(s);
    if total == 0 {
        lemma_nearest_idx_bounds(idx, s[0].location);
        assert(populate_spec(idx, s, res)[0] == idx[nearest_idx_spec(idx, s[0].location)]);
    } else {
        let chunks = (total + res - 1) / res;
        let raw = populate_raw_spec(idx, s, total, chunks);
        lemma_dedup_adj_membership(raw, t);
        let u = choose|u: int| 0 <= u < raw.len() && raw[u] == dedup_adj_spec(raw)[t];
        lemma_nearest_idx_bounds(idx, interp_at_spec(s, u * total / chunks));
        assert(raw[u] == idx[nearest_idx_spec(idx, interp_at_spec(s, u * total / chunks))]);
    }
}

/// The refinement loop: sink until a fixed point, shrinking between rounds,
/// giving up after `fuel` rounds; the fixed point is simplified when asked.
pub open spec fn improve_spec(
    idx: Seq<Bathymetry>,
    cur: Seq<Bathymetry>,
    res: int,
    fuel: int,
    simplify: bool,
) -> Seq<Bathymetry>
    decreases fuel,
{
    if fuel <= 0 {
        cur
    } else {
        let stepped = sink_spec(idx, cur, res);
        if same_path(stepped, cur) {
            if simplify {
                simplify_spec(idx, cur)
            } else {
                cur
            }
        } else {
            improve_spec(idx, shrink_spec(stepped, res / 2), res, fuel - 1, simplify)
        }
    }
}

/// Whether the refinement loop reaches the sink fixed point within `fuel`
/// rounds.
pub open spec fn improve_converges_spec(
    idx: Seq<Bathymetry>,
    cur: Seq<Bathymetry>,
    res: int,
    fuel: int,
) -> bool
    decreases fuel,
{
    if fuel <= 0 {
        false
    } else {
        let stepped = sink_spec(idx, cur, res);
        if same_path(stepped, cur) {
            true
        } else {
            improve_converges_spec(idx, shrink_spec(stepped, res / 2), res, fuel - 1)
        }
    }
}

/// A converged, unsimplified refinement is its own sink: applying the sink
/// step to the result changes no location.
pub proof fn lemma_improve_fixed_point(
    idx: Seq<Bathymetry>,
    cur: Seq<Bathymetry>,
    res: int,
    fuel: int,
)
    requires
        improve_converges_spec(idx, cur, res, fuel),
    ensures
        same_path(
            sink_spec(idx, improve_spec(idx, cur, res, fuel, false), res),
            improve_spec(idx, cur, res, fuel, false),
        ),
    decreases fuel,
{
    let stepped = sink_spec(idx, cur, res);
    if !same_path(stepped, cur) {
        lemma_improve_fixed_point(idx, shrink_spec(stepped, res / 2), res, fuel - 1);
    }
}

} // verus!
