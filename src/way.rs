//! Ways: ordered runs of nodes sharing one set of tags.
use vstd::prelude::*;
use crate::cost::hv;
use crate::geo::{distance, haversine, lemma_haversine_bounds};
use crate::node::{get_positions, positions, positions_upto};
use crate::tags::{has_tag_value, tags_from_flat, last_value, flat_pairs, tag_value};

verus! {

/// A way of the map.
#[derive(Clone, Debug, PartialEq, Eq)]
pub struct Way {
    pub id: i64,
    pub nodes: Vec<i64>,
    pub tags: Vec<(String, String)>,
    /// The length of the way in meters, when known.
    pub distance: Option<i64>,
}

/// A bicycle may travel the way against its node order: it is not one-way,
/// or bicycles are exempt.
pub open spec fn backward_allowed(t: Seq<(String, String)>) -> bool {
    !(hv(t, "oneway", "yes") && !hv(t, "oneway:bicycle", "no"))
}

/// The neighbours of position `p`: the next node, then the previous one
/// when travel against the way's order is allowed.
pub open spec fn links_at(nodes: Seq<i64>, p: int, back: bool) -> Seq<i64> {
    (if p + 1 < nodes.len() {
        seq![nodes[p + 1]]
    } else {
        Seq::empty()
    }) + (if p > 0 && back {
        seq![nodes[p - 1]]
    } else {
        Seq::empty()
    })
}

/// The neighbours of all positions in `ps`, in order.
pub open spec fn links_over(nodes: Seq<i64>, ps: Seq<usize>, back: bool) -> Seq<i64>
    decreases ps.len(),
{
    if ps.len() == 0 {
        Seq::empty()
    } else {
        links_over(nodes, ps.drop_last(), back) + links_at(nodes, ps.last() as int, back)
    }
}

/// The nodes that a bicycle at node `id` can move to along a way.
pub open spec fn way_neighbors(nodes: Seq<i64>, tags: Seq<(String, String)>, id: i64) -> Seq<i64> {
    links_over(nodes, positions(nodes, id), backward_allowed(tags))
}

/// The sum of the distances between consecutive points of `pts`.
pub open spec fn polyline_length(pts: Seq<(i32, i32)>) -> int
    decreases pts.len(),
{
    if pts.len() < 2 {
        0
    } else {
        polyline_length(pts.drop_last()) + haversine(
            pts[pts.len() - 2].0 as int,
            pts[pts.len() - 2].1 as int,
            pts.last().0 as int,
            pts.last().1 as int,
        )
    }
}

proof fn lemma_positions_single(s: Seq<i64>, x: i64, i: int, n: int)
    requires
        0 <= i < s.len(),
        0 <= n <= s.len(),
        s[i] == x,
        forall|j: int| 0 <= j < s.len() && s[j] == x ==> j == i,
    ensures
        positions_upto(s, x, n) == (if n <= i {
            Seq::<usize>::empty()
        } else {
            seq![i as usize]
        }),
    decreases n,
{
    if n > 0 {
        lemma_positions_single(s, x, i, n - 1);
        if n - 1 == i {
            assert(Seq::<usize>::empty().push(i as usize) =~= seq![i as usize]);
        }
    }
}

/// Along a one-way way whose nodes include `a` directly followed by `b`,
/// each occurring once, a bicycle at `a` can move to `b`; a bicycle at `b`
/// can move back to `a` exactly when travel against the way's order is
/// allowed (the way is not one-way, or bicycles are exempt).
pub proof fn lemma_one_way(nodes: Seq<i64>, tags: Seq<(String, String)>, a: i64, b: i64, i: int)
    requires
        nodes.len() <= usize::MAX,
        0 <= i,
        i + 1 < nodes.len(),
        nodes[i] == a,
        nodes[i + 1] == b,
        forall|j: int| 0 <= j < nodes.len() && nodes[j] == a ==> j == i,
        forall|j: int| 0 <= j < nodes.len() && nodes[j] == b ==> j == i + 1,
    ensures
        way_neighbors(nodes, tags, a).contains(b),
        way_neighbors(nodes, tags, b).contains(a) <==> backward_allowed(tags),
{
    let back = backward_allowed(tags);
    lemma_positions_single(nodes, a, i, nodes.len() as int);
    lemma_positions_single(nodes, b, i + 1, nodes.len() as int);
    let pa = seq![i as usize];
    let pb = seq![(i + 1) as usize];
    assert(pa.drop_last() =~= Seq::<usize>::empty());
    assert(pb.drop_last() =~= Seq::<usize>::empty());
    let na = way_neighbors(nodes, tags, a);
    let nb = way_neighbors(nodes, tags, b);
    assert(links_over(nodes, pa, back) == links_over(nodes, Seq::empty(), back) + links_at(nodes, i, back));
    assert(links_over(nodes, pb, back) == links_over(nodes, Seq::empty(), back) + links_at(nodes, i + 1, back));
    assert(na =~= links_at(nodes, i, back));
    assert(nb =~= links_at(nodes, i + 1, back));
    assert(na[0] == b);
    if back {
        let k = nb.len() - 1;
        assert(nb[k] == a);
    } else {
        if nb.contains(a) {
            let k = choose|k: int| 0 <= k < nb.len() && nb[k] == a;
            assert(nb[k] == nodes[i + 2]);
        }
    }
}

impl Way {
    /// A way built from a stored row: its tags come as an alternating
    /// key/value list.
    pub fn from_row(id: i64, nodes: Vec<i64>, flat_tags: &Vec<String>, distance: Option<i64>) -> (r: Way)
        ensures
            r.id == id,
            r.nodes@ == nodes@,
            r.distance == distance,
            forall|key: Seq<char>| #[trigger]
                tag_value(r.tags@, key) == last_value(flat_tags@, key, flat_pairs(flat_tags@)),
    {
        Way { id, nodes, tags: tags_from_flat(flat_tags), distance }
    }

    /// The nodes that a bicycle at node `id` can move to along this way: at
    /// each occurrence of `id`, the next node, then the previous one unless
    /// the way is one-way for bicycles.
    pub fn neighbors(&self, id: i64) -> (r: Vec<i64>)
        ensures
            r@ == way_neighbors(self.nodes@, self.tags@, id),
    {
        let back = !(has_tag_value(&self.tags, "oneway", "yes") && !has_tag_value(
            &self.tags,
            "oneway:bicycle",
            "no",
        ));
        let ps = get_positions(&self.nodes, id);
        let n = self.nodes.len();
        let mut r: Vec<i64> = Vec::new();
        let mut k: usize = 0;
        while k < ps.len()
            invariant
                n == self.nodes@.len(),
                ps@ == positions(self.nodes@, id),
                back == backward_allowed(self.tags@),
                k <= ps@.len(),
                r@ == links_over(self.nodes@, ps@.take(k as int), back),
                forall|j: int| 0 <= j < ps@.len() ==> (#[trigger] ps@[j] as int) < n,
            decreases ps@.len() - k,
        {
            let p = ps[k];
            let ghost before = r@;
            if p + 1 < n {
                r.push(self.nodes[p + 1]);
            }
            if p > 0 && back {
                r.push(self.nodes[p - 1]);
            }
            proof {
                assert(ps@.take(k + 1).drop_last() =~= ps@.take(k as int));
                assert(ps@.take(k + 1).last() == p);
                assert(r@ =~= before + links_at(self.nodes@, p as int, back));
            }
            k = k + 1;
        }
        assert(ps@.take(k as int) =~= ps@);
        r
    }

    /// The length in meters of the polyline through `points`, the
    /// coordinates of the way's nodes in order.
    pub fn length_of(points: &Vec<(i32, i32)>) -> (r: i64)
        requires
            points@.len() <= 400_000_000_000,
        ensures
            r == polyline_length(points@),
    {
        let mut total: i64 = 0;
        let mut i: usize = 1;
        if points.len() < 2 {
            return 0;
        }
        while i < points.len()
            invariant
                1 <= i <= points@.len(),
                points@.len() <= 400_000_000_000,
                total == polyline_length(points@.take(i as int)),
                0 <= total <= 20_015_087 * (i - 1),
            decreases points@.len() - i,
        {
            let (a_lat, a_lon) = points[i - 1];
            let (b_lat, b_lon) = points[i];
            let d = distance(a_lat, a_lon, b_lat, b_lon);
            proof {
                let t = points@.take(i + 1);
                assert(t.drop_last() =~= points@.take(i as int));
                assert(t[t.len() - 2] == points@[i - 1]);
                assert(t.last() == points@[i as int]);
            }
            assert(20_015_087 * (i - 1) + 20_015_087 <= 20_015_087 * 400_000_000_000) by (nonlinear_arith)
                requires
                    1 <= i < 400_000_000_000,
            ;
            total = total + d as i64;
            i = i + 1;
        }
        assert(points@.take(i as int) =~= points@);
        total
    }
}

} // verus!
