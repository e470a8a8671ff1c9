//! The graph accessor: an id-keyed store of fetched nodes, and the directed,
//! costed edges that leave a node.
use vstd::prelude::*;
use std::collections::HashMap;
use crate::cost::{edge_cost, excluded, is_excluded, lemma_edge_cost_bounds, CostError, Model};
use crate::geo::lemma_haversine_bounds;
use crate::node::{node_distance, AdjacentNode, Node};

verus! {

broadcast use vstd::std_specs::hash::group_hash_axioms;

/// Why the graph could not answer.
#[derive(Clone, Copy, Debug, PartialEq, Eq, Structural)]
pub enum GraphError {
    /// The node with this id has not been fetched into the graph.
    NotFound(i64),
    /// An edge towards this node has a negative recorded length.
    NegativeDistance(i64),
}

/// The nodes fetched so far, keyed by id. Nodes are stored whole: a reader
/// never sees a partly built node.
pub struct Graph {
    pub nodes: HashMap<i64, Node>,
    /// Winter mode: ways without winter service are not used.
    pub winter: bool,
}

impl View for Graph {
    type V = Map<i64, Node>;

    open spec fn view(&self) -> Map<i64, Node> {
        self.nodes@
    }
}

/// The edge for the adjacency entry `a` of `node`: `None` when a bicycle may
/// not take it.
pub open spec fn edge_of(g: Map<i64, Node>, winter: bool, node: Node, a: AdjacentNode, model: Model) -> Result<
    Option<(i64, i64)>,
    GraphError,
> {
    if excluded(a.tags@, winter) {
        Ok(None)
    } else if !g.contains_key(a.node_id) {
        Err(GraphError::NotFound(a.node_id))
    } else {
        match model {
            Model::Safe => if a.distance < 0 {
                Err(GraphError::NegativeDistance(a.node_id))
            } else {
                Ok(Some((a.node_id, edge_cost(a.distance as int, a.tags@, Model::Safe) as i64)))
            },
            Model::Fast => Ok(
                Some(
                    (
                        a.node_id,
                        edge_cost(node_distance(node, g[a.node_id]), a.tags@, Model::Fast) as i64,
                    ),
                ),
            ),
        }
    }
}

/// The edges of the first `n` adjacency entries of `node`, in order; the
/// first failing entry decides the error.
pub open spec fn successors_upto(g: Map<i64, Node>, winter: bool, node: Node, model: Model, n: int) -> Result<
    Seq<(i64, i64)>,
    GraphError,
>
    decreases n,
{
    if n <= 0 {
        Ok(Seq::empty())
    } else {
        match successors_upto(g, winter, node, model, n - 1) {
            Err(e) => Err(e),
            Ok(s) => match edge_of(g, winter, node, node.adjacent_nodes@[n - 1], model) {
                Err(e) => Err(e),
                Ok(None) => Ok(s),
                Ok(Some(x)) => Ok(s.push(x)),
            },
        }
    }
}

/// The edges leaving `node`: each neighbour with the cost of moving there.
pub open spec fn successors_of(g: Map<i64, Node>, winter: bool, node: Node, model: Model) -> Result<
    Seq<(i64, i64)>,
    GraphError,
> {
    successors_upto(g, winter, node, model, node.adjacent_nodes@.len() as int)
}

/// Whether `(to, cost)` is one of the edges leaving the stored node `from`.
pub open spec fn is_edge(g: Map<i64, Node>, winter: bool, model: Model, from: i64, to: i64, cost: i64) -> bool {
    &&& g.contains_key(from)
    &&& successors_of(g, winter, g[from], model) matches Ok(s)
    &&& exists|j: int| 0 <= j < s.len() && s[j] == (to, cost)
}

proof fn lemma_successors_nonnegative(g: Map<i64, Node>, winter: bool, node: Node, model: Model, n: int)
    requires
        0 <= n <= node.adjacent_nodes@.len(),
    ensures
        match successors_upto(g, winter, node, model, n) {
            Ok(s) => forall|j: int| 0 <= j < s.len() ==> 0 <= #[trigger] s[j].1 && g.contains_key(s[j].0),
            Err(_) => true,
        },
    decreases n,
{
    if n > 0 {
        lemma_successors_nonnegative(g, winter, node, model, n - 1);
        let a = node.adjacent_nodes@[n - 1];
        if g.contains_key(a.node_id) {
            if a.distance >= 0 {
                lemma_edge_cost_bounds(a.distance as int, a.tags@, model);
            }
            lemma_haversine_bounds(
                node.lat as int,
                node.lon as int,
                g[a.node_id].lat as int,
                g[a.node_id].lon as int,
            );
            lemma_edge_cost_bounds(node_distance(node, g[a.node_id]), a.tags@, model);
        }
    }
}

/// Edge costs are never negative, and edges lead to stored nodes.
pub proof fn lemma_edge_nonnegative(g: Map<i64, Node>, winter: bool, model: Model, from: i64, to: i64, cost: i64)
    requires
        is_edge(g, winter, model, from, to, cost),
    ensures
        0 <= cost,
        g.contains_key(to),
{
    let node = g[from];
    lemma_successors_nonnegative(g, winter, node, model, node.adjacent_nodes@.len() as int);
    let s = successors_of(g, winter, node, model)->Ok_0;
    let j = choose|j: int| 0 <= j < s.len() && s[j] == (to, cost);
    assert(0 <= s[j].1);
}

proof fn lemma_error_persists(g: Map<i64, Node>, winter: bool, node: Node, model: Model, i: int, n: int)
    requires
        0 <= i <= n,
        successors_upto(g, winter, node, model, i) is Err,
    ensures
        successors_upto(g, winter, node, model, n) == successors_upto(g, winter, node, model, i),
    decreases n - i,
{
    if i < n {
        lemma_error_persists(g, winter, node, model, i, n - 1);
    }
}

proof fn lemma_successors_grow(g: Map<i64, Node>, winter: bool, node: Node, model: Model, n: int, added: Node)
    requires
        0 <= n <= node.adjacent_nodes@.len(),
        !g.contains_key(added.id),
        successors_upto(g, winter, node, model, n) is Ok,
    ensures
        successors_upto(g.insert(added.id, added), winter, node, model, n) == successors_upto(g, winter, node, model, n),
    decreases n,
{
    if n > 0 {
        let a = node.adjacent_nodes@[n - 1];
        if successors_upto(g, winter, node, model, n - 1) is Err {
            lemma_error_persists(g, winter, node, model, n - 1, n);
        }
        lemma_successors_grow(g, winter, node, model, n - 1, added);
        if !excluded(a.tags@, winter) {
            assert(g.contains_key(a.node_id));
            assert(g.insert(added.id, added)[a.node_id] == g[a.node_id]);
        }
    }
}

/// Adding a node that the graph did not hold keeps every edge it had: the
/// edges of a stored node, once all its neighbours are stored, do not change.
pub proof fn lemma_insert_keeps_edges(g: Map<i64, Node>, winter: bool, model: Model, added: Node, from: i64, to: i64, cost: i64)
    requires
        !g.contains_key(added.id),
        is_edge(g, winter, model, from, to, cost),
    ensures
        is_edge(g.insert(added.id, added), winter, model, from, to, cost),
{
    let h = g.insert(added.id, added);
    assert(h[from] == g[from]);
    lemma_successors_grow(g, winter, g[from], model, g[from].adjacent_nodes@.len() as int, added);
}

impl Graph {
    /// An empty graph.
    pub fn new(winter: bool) -> (r: Graph)
        ensures
            r@ == Map::<i64, Node>::empty(),
            r.winter == winter,
    {
        Graph { nodes: HashMap::new(), winter }
    }

    /// Stores `node` under its id, replacing what was stored there.
    pub fn insert(&mut self, node: Node)
        ensures
            final(self)@ == old(self)@.insert(node.id, node),
            final(self).winter == old(self).winter,
    {
        let id = node.id;
        self.nodes.insert(id, node);
    }

    /// Whether the node `id` is stored.
    pub fn contains(&self, id: i64) -> (r: bool)
        ensures
            r == self@.contains_key(id),
    {
        self.nodes.contains_key(&id)
    }

    /// The stored node `id`.
    pub fn get_node(&self, id: i64) -> (r: Result<&Node, GraphError>)
        ensures
            self@.contains_key(id) ==> r == Ok::<&Node, GraphError>(&self@[id]),
            !self@.contains_key(id) ==> r == Err::<&Node, GraphError>(GraphError::NotFound(id)),
    {
        match self.nodes.get(&id) {
            Some(n) => Ok(n),
            None => Err(GraphError::NotFound(id)),
        }
    }
}

impl Node {
    /// The edges leaving this node that a bicycle may take under `model`,
    /// in the order of its adjacency list, each as the neighbour's id and the
    /// cost of moving there. Neighbours are looked up in `graph`. Fails on the
    /// first neighbour that is not stored or whose edge has a negative length.
    pub fn successors(&self, graph: &Graph, model: Model) -> (r: Result<Vec<(i64, i64)>, GraphError>)
        ensures
            match (r, successors_of(graph@, graph.winter, *self, model)) {
                (Ok(v), Ok(s)) => v@ == s,
                (Err(e), Err(f)) => e == f,
                _ => false,
            },
            match r {
                Ok(v) => forall|j: int|
                    0 <= j < v@.len() ==> 0 <= #[trigger] v@[j].1 && graph@.contains_key(v@[j].0),
                Err(_) => true,
            },
    {
        let mut out: Vec<(i64, i64)> = Vec::new();
        let mut i: usize = 0;
        let n = self.adjacent_nodes.len();
        while i < n
            invariant
                n == self.adjacent_nodes@.len(),
                i <= n,
                successors_upto(graph@, graph.winter, *self, model, i as int) == Ok::<
                    Seq<(i64, i64)>,
                    GraphError,
                >(out@),
            decreases n - i,
        {
            let a = &self.adjacent_nodes[i];
            if !is_excluded(&a.tags, graph.winter) {
                let other = match graph.get_node(a.node_id) {
                    Ok(o) => o,
                    Err(e) => {
                        proof {
                            lemma_error_persists(graph@, graph.winter, *self, model, i + 1, n as int);
                        }
                        return Err(e);
                    },
                };
                let c = match model {
                    Model::Safe => match self.calculate_cost_safe(a) {
                        Ok(c) => c,
                        Err(CostError::NegativeDistance) => {
                            proof {
                                lemma_error_persists(
                                    graph@,
                                    graph.winter,
                                    *self,
                                    model,
                                    i + 1,
                                    n as int,
                                );
                            }
                            return Err(GraphError::NegativeDistance(a.node_id));
                        },
                    },
                    Model::Fast => self.calculate_cost_fast(other, a),
                };
                out.push((a.node_id, c));
            }
            i = i + 1;
        }
        proof {
            lemma_successors_nonnegative(graph@, graph.winter, *self, model, n as int);
            assert(successors_upto(graph@, graph.winter, *self, model, n as int) == Ok::<
                Seq<(i64, i64)>,
                GraphError,
            >(out@));
            assert forall|j: int| 0 <= j < out@.len() implies 0 <= #[trigger] out@[j].1 && graph@.contains_key(out@[j].0) by {
                let ss = successors_upto(graph@, graph.winter, *self, model, n as int);
                assert(ss is Ok);
                assert(ss->Ok_0 == out@);
                assert(0 <= ss->Ok_0[j].1);
            }
        }
        Ok(out)
    }
}

} // verus!
