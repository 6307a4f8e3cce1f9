//! The longitudinal section of a path: cumulative along-path distance
//! against depth.

use vstd::prelude::*;

use crate::bathymetry::Bathymetry;
use crate::distance::distance_spec;
use crate::text::{render_trimmed, push_trimmed};

verus! {

/// One section sample: the distance from the start of the path in whole
/// metres, and the depth there in millimetres.
#[derive(Clone, Copy, Debug, PartialEq, Eq, Structural)]
pub struct Section {
    pub distance: i64,
    pub depth: i64,
}

impl Section {
    /// A sample from a distance in metres and a depth in millimetres.
    pub fn new(distance: i64, depth: i64) -> (r: Section)
        ensures
            r.distance == distance,
            r.depth == depth,
    {
        Section { distance, depth }
    }
}

/// The cumulative distance in metres from the start to point `i`, each leg
/// truncated to whole metres before it is added.
pub open spec fn cum_dist_spec(s: Seq<Bathymetry>, i: int) -> int
    decreases i,
{
    if i <= 0 {
        0
    } else {
        cum_dist_spec(s, i - 1) + distance_spec(s[i - 1].location, s[i].location) / 1000
    }
}

/// The section of a path: one sample per point, with cumulative distance.
pub open spec fn section_spec(s: Seq<Bathymetry>) -> Seq<Section> {
    Seq::new(
        s.len(),
        |i: int| Section { distance: cum_dist_spec(s, i) as i64, depth: s[i].depth },
    )
}

/// Derives the longitudinal section of a path.
pub fn section(path: Vec<Bathymetry>) -> (r: Vec<Section>)
    requires
        path@.len() <= 100000000000,
    ensures
        r@ == section_spec(path@),
{
    let n = path.len();
    let mut out: Vec<Section> = Vec::new();
    if n == 0 {
        proof {
            assert(out@ =~= section_spec(path@));
        }
        return out;
    }
    out.push(Section { distance: 0, depth: path[0].depth });
    let mut cum: u64 = 0;
    let mut i: usize = 1;
    while i < n
        invariant
            1 <= i <= n,
            n == path@.len() <= 100000000000,
            cum == cum_dist_spec(path@, i as int - 1),
            cum <= (i - 1) * 20015115,
            out@.len() == i,
            forall|t: int|
                0 <= t < i ==> #[trigger] out@[t] == (Section {
                    distance: cum_dist_spec(path@, t) as i64,
                    depth: path@[t].depth,
                }),
        decreases n - i,
    {
        let d = path[i - 1].distance_to(&path[i]);
        proof {
            vstd::arithmetic::div_mod::lemma_div_pos_is_pos(d as int, 1000);
            vstd::arithmetic::div_mod::lemma_div_is_ordered(d as int, 20015114443, 1000);
            assert(i * 20015115 == (i - 1) * 20015115 + 20015115) by (nonlinear_arith);
            assert(i * 20015115 <= 100000000000 * 20015115) by (nonlinear_arith)
                requires
                    0 <= i as int <= 100000000000,
            ;
        }
        cum = cum + d / 1000;
        out.push(Section { distance: cum as i64, depth: path[i].depth });
        i = i + 1;
    }
    proof {
        assert(out@ =~= section_spec(path@));
    }
    out
}

/// One CSV row of the section: distance in kilometres, then depth in metres.
pub open spec fn section_line_spec(e: Section) -> Seq<char> {
    render_trimmed(e.distance as int, 3) + seq![','] + render_trimmed(e.depth as int, 3) + seq![
        '\n',
    ]
}

/// The CSV rows of a section, in order.
pub open spec fn section_body_spec(s: Seq<Section>) -> Seq<char>
    decreases s.len(),
{
    if s.len() == 0 {
        Seq::empty()
    } else {
        section_body_spec(s.drop_last()) + section_line_spec(s.last())
    }
}

/// A whole section document: header, then distance and depth per sample.
pub open spec fn section_csv_spec(s: Seq<Section>) -> Seq<char> {
    "distance,depth\n"@ + section_body_spec(s)
}

/// Writes a section as CSV.
pub fn to_csv(section: Vec<Section>) -> (r: String)
    ensures
        r@ == section_csv_spec(section@),
{
    proof {
        reveal_strlit("distance,depth\n");
    }
    let mut out = String::new();
    out.append("distance,depth\n");
    let n = section.len();
    let mut i: usize = 0;
    while i < n
        invariant
            i <= n,
            n == section@.len(),
            out@ == "distance,depth\n"@ + section_body_spec(section@.subrange(0, i as int)),
        decreases n - i,
    {
        proof {
            reveal_strlit(",");
            reveal_strlit("\n");
        }
        let e = section[i];
        push_trimmed(&mut out, e.distance as i128, 3);
        out.append(",");
        push_trimmed(&mut out, e.depth as i128, 3);
        out.append("\n");
        proof {
            let cur = section@.subrange(0, i as int + 1);
            assert(cur.drop_last() =~= section@.subrange(0, i as int));
            assert(cur.last() == section@[i as int]);
            assert(out@ =~= "distance,depth\n"@ + section_body_spec(cur));
        }
        i = i + 1;
    }
    proof {
        assert(section@.subrange(0, n as int) =~= section@);
    }
    out
}

} // verus!
