//! Nodes of the road graph and their adjacency lists.
use vstd::prelude::*;
use crate::cost::{edge_cost, move_cost, CostError, Model};
use crate::geo::{distance, haversine};
use crate::tags::{has_key, has_tag, has_tag_value, has_value};
use crate::way::{way_neighbors, Way};

verus! {

/// An edge leaving a node: the node it leads to and the way it runs along.
#[derive(Clone, Debug, PartialEq, Eq)]
pub struct AdjacentNode {
    pub node_id: i64,
    /// The tags of the way, first occurrence of a key counting.
    pub tags: Vec<(String, String)>,
    /// The length of the edge in meters.
    pub distance: i32,
    pub intermediate_nodes: Option<Vec<i64>>,
}

/// A node of the road graph with the edges that leave it.
#[derive(Clone, Debug, PartialEq, Eq)]
pub struct Node {
    pub id: i64,
    /// The latitude in decimicro degrees (10^-7 degrees).
    pub lat: i32,
    /// The longitude in decimicro degrees (10^-7 degrees).
    pub lon: i32,
    pub adjacent_nodes: Vec<AdjacentNode>,
}

impl AdjacentNode {
    /// Whether the edge's way carries `key` with exactly `value`.
    pub fn has_tag_value(&self, key: &str, value: &str) -> (r: bool)
        ensures
            r == has_value(self.tags@, key@, value@),
    {
        has_tag_value(&self.tags, key, value)
    }

    /// Whether the edge's way carries `key`.
    pub fn has_tag(&self, key: &str) -> (r: bool)
        ensures
            r == has_key(self.tags@, key@),
    {
        has_tag(&self.tags, key)
    }
}

/// The great-circle distance in meters between two nodes.
pub open spec fn node_distance(a: Node, b: Node) -> int {
    haversine(a.lat as int, a.lon as int, b.lat as int, b.lon as int)
}

/// The indices at which `x` occurs among the first `n` elements of `s`.
pub open spec fn positions_upto(s: Seq<i64>, x: i64, n: int) -> Seq<usize>
    decreases n,
{
    if n <= 0 {
        Seq::empty()
    } else if s[n - 1] == x {
        positions_upto(s, x, n - 1).push((n - 1) as usize)
    } else {
        positions_upto(s, x, n - 1)
    }
}

/// The indices at which `x` occurs in `s`, in increasing order.
pub open spec fn positions(s: Seq<i64>, x: i64) -> Seq<usize> {
    positions_upto(s, x, s.len() as int)
}

/// The indices at which `elem` occurs in `items`, in increasing order.
pub fn get_positions(items: &Vec<i64>, elem: i64) -> (r: Vec<usize>)
    ensures
        r@ == positions(items@, elem),
        forall|j: int| 0 <= j < r@.len() ==> (#[trigger] r@[j] as int) < items@.len(),
{
    let mut r: Vec<usize> = Vec::new();
    let mut i: usize = 0;
    while i < items.len()
        invariant
            i <= items@.len(),
            r@ == positions_upto(items@, elem, i as int),
            forall|j: int| 0 <= j < r@.len() ==> (#[trigger] r@[j] as int) < i,
        decreases items@.len() - i,
    {
        if items[i] == elem {
            r.push(i);
        }
        i = i + 1;
    }
    r
}

impl Node {
    /// The great-circle distance in meters to `other_node`.
    pub fn distance(&self, other_node: &Node) -> (r: i32)
        ensures
            r == node_distance(*self, *other_node),
            r >= 0,
    {
        distance(self.lat, self.lon, other_node.lat, other_node.lon)
    }

    /// The cost of the edge `a_node` under the safe profile, from the edge's
    /// recorded length.
    pub fn calculate_cost_safe(&self, a_node: &AdjacentNode) -> (r: Result<i64, CostError>)
        ensures
            a_node.distance < 0 <==> r is Err,
            r matches Ok(c) ==> c == edge_cost(a_node.distance as int, a_node.tags@, Model::Safe)
                && c >= 0,
    {
        move_cost(a_node.distance, &a_node.tags, Model::Safe)
    }

    /// The cost of the edge `a_node`, which leads to `other_node`, under the
    /// fast profile, from the distance between the two nodes.
    pub fn calculate_cost_fast(&self, other_node: &Node, a_node: &AdjacentNode) -> (r: i64)
        ensures
            r == edge_cost(node_distance(*self, *other_node), a_node.tags@, Model::Fast),
            r >= 0,
    {
        let d = self.distance(other_node);
        match move_cost(d, &a_node.tags, Model::Fast) {
            Ok(c) => c,
            Err(_) => 0,
        }
    }
}

/// The coordinates of `id` in `coords` from position `i` on: its first entry.
pub open spec fn coord_from(coords: Seq<(i64, i32, i32)>, id: i64, i: int) -> Option<(i32, i32)>
    decreases coords.len() - i,
{
    if i < 0 || i >= coords.len() {
        None
    } else if coords[i].0 == id {
        Some((coords[i].1, coords[i].2))
    } else {
        coord_from(coords, id, i + 1)
    }
}

/// The coordinates of `id` in `coords`: its first entry.
pub open spec fn coord_of(coords: Seq<(i64, i32, i32)>, id: i64) -> Option<(i32, i32)> {
    coord_from(coords, id, 0)
}

/// The edges of node `id` along the first `n` ways: each neighbour with the
/// index of the way it is reached along.
pub open spec fn node_links(ways: Seq<Way>, id: i64, n: int) -> Seq<(i64, int)>
    decreases n,
{
    if n <= 0 {
        Seq::empty()
    } else {
        node_links(ways, id, n - 1) + way_neighbors(ways[n - 1].nodes@, ways[n - 1].tags@, id).map_values(
            |nb: i64| (nb, n - 1),
        )
    }
}

/// The adjacency entry `a` stands for `link`: its target, the tags of its
/// way and the distance from `(lat, lon)` to the target.
pub open spec fn adjacent_ok(
    a: AdjacentNode,
    link: (i64, int),
    ways: Seq<Way>,
    lat: i32,
    lon: i32,
    coords: Seq<(i64, i32, i32)>,
) -> bool {
    &&& a.node_id == link.0
    &&& a.tags@ == ways[link.1].tags@
    &&& coord_of(coords, link.0) is Some
    &&& a.distance == haversine(
        lat as int,
        lon as int,
        coord_of(coords, link.0)->Some_0.0 as int,
        coord_of(coords, link.0)->Some_0.1 as int,
    )
    &&& a.intermediate_nodes is None
}

/// `n` is node `id` at `(lat, lon)` with one edge for each link along
/// `ways`, as `Node::from_ways` builds it.
pub open spec fn built_from(n: Node, id: i64, lat: i32, lon: i32, ways: Seq<Way>, coords: Seq<(i64, i32, i32)>) -> bool {
    &&& n.id == id
    &&& n.lat == lat
    &&& n.lon == lon
    &&& n.adjacent_nodes@.len() == node_links(ways, id, ways.len() as int).len()
    &&& forall|k: int|
        0 <= k < n.adjacent_nodes@.len() ==> adjacent_ok(
            #[trigger] n.adjacent_nodes@[k],
            node_links(ways, id, ways.len() as int)[k],
            ways,
            lat,
            lon,
            coords,
        )
}

/// Two fetches of the same node from the same stored data agree in every
/// field: id, coordinates, and each edge's target, tags, length and
/// intermediate nodes.
pub proof fn lemma_fetches_agree(
    a: Node,
    b: Node,
    id: i64,
    lat: i32,
    lon: i32,
    ways: Seq<Way>,
    coords: Seq<(i64, i32, i32)>,
)
    requires
        built_from(a, id, lat, lon, ways, coords),
        built_from(b, id, lat, lon, ways, coords),
    ensures
        a.id == b.id && a.lat == b.lat && a.lon == b.lon,
        a.adjacent_nodes@.len() == b.adjacent_nodes@.len(),
        forall|k: int|
            0 <= k < a.adjacent_nodes@.len() ==> {
                &&& (#[trigger] a.adjacent_nodes@[k]).node_id == b.adjacent_nodes@[k].node_id
                &&& a.adjacent_nodes@[k].tags@ == b.adjacent_nodes@[k].tags@
                &&& a.adjacent_nodes@[k].distance == b.adjacent_nodes@[k].distance
                &&& a.adjacent_nodes@[k].intermediate_nodes == b.adjacent_nodes@[k].intermediate_nodes
            },
{
    assert forall|k: int| 0 <= k < a.adjacent_nodes@.len() implies {
        &&& (#[trigger] a.adjacent_nodes@[k]).node_id == b.adjacent_nodes@[k].node_id
        &&& a.adjacent_nodes@[k].tags@ == b.adjacent_nodes@[k].tags@
        &&& a.adjacent_nodes@[k].distance == b.adjacent_nodes@[k].distance
        &&& a.adjacent_nodes@[k].intermediate_nodes == b.adjacent_nodes@[k].intermediate_nodes
    } by {
        assert(adjacent_ok(b.adjacent_nodes@[k], node_links(ways, id, ways.len() as int)[k], ways, lat, lon, coords));
    }
}

/// The squared planar distance, in coordinate units, from `n` to `(lat, lon)`.
pub open spec fn planar_sq(n: Node, lat: i32, lon: i32) -> int {
    (n.lat - lat) * (n.lat - lat) + (n.lon - lon) * (n.lon - lon)
}

fn find_coord(coords: &Vec<(i64, i32, i32)>, id: i64) -> (r: Option<(i32, i32)>)
    ensures
        r == coord_of(coords@, id),
{
    let mut i: usize = 0;
    while i < coords.len()
        invariant
            i <= coords@.len(),
            coord_of(coords@, id) == coord_from(coords@, id, i as int),
        decreases coords@.len() - i,
    {
        let (c, lat, lon) = coords[i];
        if c == id {
            return Some((lat, lon));
        }
        i = i + 1;
    }
    None
}

fn planar_sq_of(n: &Node, lat: i32, lon: i32) -> (r: u128)
    ensures
        r == planar_sq(*n, lat, lon),
{
    let a = (n.lat as i64 - lat as i64) as i128;
    let b = (n.lon as i64 - lon as i64) as i128;
    assert(0 <= a * a <= 0x1_0000_0000 * 0x1_0000_0000) by (nonlinear_arith)
        requires
            -0x1_0000_0000 <= a <= 0x1_0000_0000,
    ;
    assert(0 <= b * b <= 0x1_0000_0000 * 0x1_0000_0000) by (nonlinear_arith)
        requires
            -0x1_0000_0000 <= b <= 0x1_0000_0000,
    ;
    (a * a + b * b) as u128
}

/// A copy of a tag list.
pub fn copy_tags(tags: &Vec<(String, String)>) -> (r: Vec<(String, String)>)
    ensures
        r@ == tags@,
{
    let mut r: Vec<(String, String)> = Vec::new();
    let mut i: usize = 0;
    while i < tags.len()
        invariant
            i <= tags@.len(),
            r@ == tags@.take(i as int),
        decreases tags@.len() - i,
    {
        let k = tags[i].0.clone();
        let v = tags[i].1.clone();
        r.push((k, v));
        assert(tags@.take(i + 1) =~= tags@.take(i as int).push(tags@[i as int]));
        i = i + 1;
    }
    assert(tags@.take(i as int) =~= tags@);
    r
}

proof fn lemma_links_prefix(ways: Seq<Way>, id: i64, n: int, m: int)
    requires
        0 <= n <= m,
    ensures
        node_links(ways, id, n).len() <= node_links(ways, id, m).len(),
        forall|k: int|
            0 <= k < node_links(ways, id, n).len() ==> #[trigger] node_links(ways, id, m)[k]
                == node_links(ways, id, n)[k],
    decreases m - n,
{
    if n < m {
        lemma_links_prefix(ways, id, n, m - 1);
    }
}

impl Node {
    /// The candidate nearest to `(lat, lon)` in the coordinate plane, the
    /// first of several equally near; `None` when there is no candidate.
    pub fn closest(candidates: &Vec<Node>, lat: i32, lon: i32) -> (r: Option<usize>)
        ensures
            r is None <==> candidates@.len() == 0,
            r matches Some(i) ==> {
                &&& (i as int) < candidates@.len()
                &&& forall|j: int|
                    0 <= j < candidates@.len() ==> planar_sq(candidates@[i as int], lat, lon)
                        <= planar_sq(#[trigger] candidates@[j], lat, lon)
                &&& forall|j: int|
                    0 <= j < i ==> planar_sq(candidates@[i as int], lat, lon) < planar_sq(
                        #[trigger] candidates@[j],
                        lat,
                        lon,
                    )
            },
    {
        if candidates.len() == 0 {
            return None;
        }
        let mut best: usize = 0;
        let mut best_d: u128 = planar_sq_of(&candidates[0], lat, lon);
        let mut j: usize = 1;
        while j < candidates.len()
            invariant
                candidates@.len() > 0,
                best < j <= candidates@.len(),
                best_d == planar_sq(candidates@[best as int], lat, lon),
                forall|k: int|
                    0 <= k < j ==> planar_sq(candidates@[best as int], lat, lon) <= planar_sq(
                        #[trigger] candidates@[k],
                        lat,
                        lon,
                    ),
                forall|k: int|
                    0 <= k < best ==> planar_sq(candidates@[best as int], lat, lon) < planar_sq(
                        #[trigger] candidates@[k],
                        lat,
                        lon,
                    ),
            decreases candidates@.len() - j,
        {
            let d = planar_sq_of(&candidates[j], lat, lon);
            if d < best_d {
                best = j;
                best_d = d;
            }
            j = j + 1;
        }
        Some(best)
    }

    /// Builds node `id` at `(lat, lon)` from the ways through it: one edge to
    /// each neighbour along each way, in the order of the ways, each with the
    /// way's tags and the distance to the neighbour, whose coordinates are
    /// looked up in `coords`. Fails with the id of the first neighbour that
    /// has no coordinates there.
    pub fn from_ways(id: i64, lat: i32, lon: i32, ways: &Vec<Way>, coords: &Vec<(i64, i32, i32)>) -> (r:
        Result<Node, i64>)
        ensures
            (forall|k: int|
                0 <= k < node_links(ways@, id, ways@.len() as int).len() ==> coord_of(
                    coords@,
                    (#[trigger] node_links(ways@, id, ways@.len() as int)[k]).0,
                ) is Some) <==> r is Ok,
            r matches Ok(n) ==> built_from(n, id, lat, lon, ways@, coords@),
            r matches Err(m) ==> coord_of(coords@, m) is None,
    {
        let mut adj: Vec<AdjacentNode> = Vec::new();
        let mut w: usize = 0;
        while w < ways.len()
            invariant
                w <= ways@.len(),
                adj@.len() == node_links(ways@, id, w as int).len(),
                forall|k: int|
                    0 <= k < adj@.len() ==> adjacent_ok(
                        #[trigger] adj@[k],
                        node_links(ways@, id, w as int)[k],
                        ways@,
                        lat,
                        lon,
                        coords@,
                    ),
            decreases ways@.len() - w,
        {
            let way = &ways[w];
            let nbs = way.neighbors(id);
            let ghost base = node_links(ways@, id, w as int);
            let ghost all = node_links(ways@, id, w + 1);
            assert(all == base + nbs@.map_values(|nb: i64| (nb, w as int)));
            assert(all.len() == base.len() + nbs@.len());
            let mut k: usize = 0;
            while k < nbs.len()
                invariant
                    w < ways@.len(),
                    way == ways@[w as int],
                    all == node_links(ways@, id, w + 1),
                    base == node_links(ways@, id, w as int),
                    all.len() == base.len() + nbs@.len(),
                    all == base + nbs@.map_values(|nb: i64| (nb, w as int)),
                    k <= nbs@.len(),
                    adj@.len() == base.len() + k,
                    forall|m: int|
                        0 <= m < adj@.len() ==> adjacent_ok(
                            #[trigger] adj@[m],
                            all[m],
                            ways@,
                            lat,
                            lon,
                            coords@,
                        ),
                decreases nbs@.len() - k,
            {
                let nb = nbs[k];
                match find_coord(coords, nb) {
                    Some((nlat, nlon)) => {
                        let d = distance(lat, lon, nlat, nlon);
                        let a = AdjacentNode {
                            node_id: nb,
                            tags: copy_tags(&way.tags),
                            distance: d,
                            intermediate_nodes: None,
                        };
                        let ghost before = adj@;
                        adj.push(a);
                        assert forall|m: int| 0 <= m < adj@.len() implies adjacent_ok(
                            #[trigger] adj@[m],
                            all[m],
                            ways@,
                            lat,
                            lon,
                            coords@,
                        ) by {
                            if m < before.len() {
                                assert(adj@[m] == before[m]);
                            } else {
                                assert(all[m] == (nb, w as int));
                            }
                        }
                    },
                    None => {
                        proof {
                            lemma_links_prefix(ways@, id, w + 1, ways@.len() as int);
                            let full = node_links(ways@, id, ways@.len() as int);
                            let j = base.len() + k;
                            assert(all.len() == base.len() + nbs@.len());
                            assert(all[j] == (nb, w as int));
                            assert(full[j] == all[j]);
                            assert(coord_of(coords@, full[j].0) is None);
                        }
                        return Err(nb);
                    },
                }
                k = k + 1;
            }
            w = w + 1;
        }
        proof {
            let full = node_links(ways@, id, ways@.len() as int);
            assert forall|k: int| 0 <= k < full.len() implies coord_of(
                coords@,
                (#[trigger] full[k]).0,
            ) is Some by {
                assert(adjacent_ok(adj@[k], full[k], ways@, lat, lon, coords@));
            }
        }
        Ok(Node { id, lat, lon, adjacent_nodes: adj })
    }
}

} // verus!
