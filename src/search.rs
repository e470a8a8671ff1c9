//! The A* frontier search.
//!
//! A search keeps an append-only table of records, each a node reached with
//! its parent record, its accumulated cost and the cost of the last edge.
//! Records never change once written: a cheaper way to a node is a new
//! record, and the node's best record is looked up by id. The frontier holds
//! entries `(estimate, cost, record index)`; an entry whose cost exceeds the
//! best recorded cost of its node is stale and is dropped when popped.
//!
//! The search is a state machine: `run` advances it until it reaches the
//! goal, exhausts the frontier, hits its step deadline, or needs a node that
//! the graph does not hold yet. In that last case the caller fetches the node,
//! adds it to the graph and calls `run` again.
use vstd::prelude::*;
use std::collections::HashMap;
use crate::cost::Model;
use crate::exhaustion::{lemma_exhausted_means_unreachable, lemma_init_complete, lemma_run_complete};
use crate::graph::{is_edge, lemma_insert_keeps_edges, successors_of, Graph, GraphError};
use crate::node::{node_distance, Node};

verus! {

broadcast use vstd::std_specs::hash::group_hash_axioms;

/// Accumulated costs above this bound are not recorded.
pub const MAX_COST: i64 = 0x4000_0000_0000_0000;

/// A node reached by the search.
#[derive(Clone, Copy, Debug, PartialEq, Eq, Structural)]
pub struct Record {
    pub node: i64,
    /// The record this one was reached from; `None` for the start.
    pub parent: Option<usize>,
    /// The accumulated cost from the start.
    pub cost: i64,
    /// The cost of the edge from the parent.
    pub step: i64,
}

/// A candidate for expansion.
#[derive(Clone, Copy, Debug, PartialEq, Eq, Structural)]
pub struct Entry {
    /// Accumulated cost plus the straight-line distance to the goal.
    pub estimate: i64,
    pub cost: i64,
    /// The record this entry stands for.
    pub index: usize,
}

/// What a call of `run` ended with.
#[derive(Clone, Copy, Debug, PartialEq, Eq, Structural)]
pub enum Verdict {
    /// Not finished yet (never returned by `run`).
    Continue,
    /// The goal was reached with this record.
    Found(usize),
    /// The step deadline passed; this record was the current candidate.
    Deadline(usize),
    /// The frontier is empty: no path exists.
    NoPath,
    /// The graph lacks this node; add it and run again.
    Need(i64),
    /// The graph holds an edge with a negative length.
    Failed(GraphError),
}

/// The abstract state of a search.
pub struct SearchView {
    pub records: Seq<Record>,
    pub best: Map<i64, usize>,
    pub frontier: Seq<Entry>,
    pub start: i64,
    pub goal: i64,
    pub model: Model,
    pub steps: int,
    pub max_steps: int,
}

/// A search in progress.
pub struct Search {
    records: Vec<Record>,
    best: HashMap<i64, usize>,
    frontier: Vec<Entry>,
    start: i64,
    goal: i64,
    model: Model,
    steps: u64,
    max_steps: u64,
}

impl View for Search {
    type V = SearchView;

    closed spec fn view(&self) -> SearchView {
        SearchView {
            records: self.records@,
            best: self.best@,
            frontier: self.frontier@,
            start: self.start,
            goal: self.goal,
            model: self.model,
            steps: self.steps as int,
            max_steps: self.max_steps as int,
        }
    }
}

/// The state of a fresh search: the start recorded at cost 0 and queued.
pub open spec fn init_view(start: i64, goal: i64, model: Model, max_steps: int) -> SearchView {
    SearchView {
        records: seq![Record { node: start, parent: None, cost: 0, step: 0 }],
        best: map![start => 0usize],
        frontier: seq![Entry { estimate: 0, cost: 0, index: 0 }],
        start,
        goal,
        model,
        steps: 0,
        max_steps,
    }
}

/// Entry `a` is popped before `b`: lower estimate, then lower cost.
pub open spec fn key_lt(a: Entry, b: Entry) -> bool {
    a.estimate < b.estimate || (a.estimate == b.estimate && a.cost < b.cost)
}

/// `i` is the first entry with the least key.
pub open spec fn is_first_min(f: Seq<Entry>, i: int) -> bool {
    &&& 0 <= i < f.len()
    &&& forall|k: int| 0 <= k < i ==> key_lt(f[i], #[trigger] f[k])
    &&& forall|k: int| i < k < f.len() ==> !key_lt(#[trigger] f[k], f[i])
}

/// The entry popped next.
pub open spec fn first_min(f: Seq<Entry>) -> int {
    choose|i: int| is_first_min(f, i)
}

/// The straight-line distance from the stored node `n` to the goal.
pub open spec fn heuristic(g: Map<i64, Node>, v: SearchView, n: i64) -> int {
    node_distance(g[n], g[v.goal])
}

/// Relaxing one edge out of record `from`: a new record and entry when the
/// neighbour is new or now cheaper, no change otherwise.
pub open spec fn relax_one(v: SearchView, g: Map<i64, Node>, from: usize, edge: (i64, i64)) -> SearchView {
    let new_cost = v.records[from as int].cost + edge.1;
    if new_cost > MAX_COST || v.records.len() >= usize::MAX {
        v
    } else if v.best.contains_key(edge.0) && v.records[v.best[edge.0] as int].cost <= new_cost {
        v
    } else {
        let idx = v.records.len();
        SearchView {
            records: v.records.push(
                Record { node: edge.0, parent: Some(from), cost: new_cost as i64, step: edge.1 },
            ),
            best: v.best.insert(edge.0, idx as usize),
            frontier: v.frontier.push(
                Entry {
                    estimate: (new_cost + heuristic(g, v, edge.0)) as i64,
                    cost: new_cost as i64,
                    index: idx as usize,
                },
            ),
            ..v
        }
    }
}

/// Relaxing the edges `edges` out of record `from`, in order.
pub open spec fn relax_all(v: SearchView, g: Map<i64, Node>, from: usize, edges: Seq<(i64, i64)>) -> SearchView
    decreases edges.len(),
{
    if edges.len() == 0 {
        v
    } else {
        relax_one(relax_all(v, g, from, edges.drop_last()), g, from, edges.last())
    }
}

/// Whether the entry `e` is stale: its node has a cheaper record.
pub open spec fn is_stale(v: SearchView, e: Entry) -> bool {
    v.records[e.index as int].cost > v.records[v.best[v.records[e.index as int].node] as int].cost
}

/// One step: pop the first least entry and act on it.
pub open spec fn step(v: SearchView, g: Map<i64, Node>, winter: bool) -> (SearchView, Verdict) {
    if v.frontier.len() == 0 {
        (v, Verdict::NoPath)
    } else {
        let i = first_min(v.frontier);
        let e = v.frontier[i];
        let r = v.records[e.index as int];
        let popped = SearchView { frontier: v.frontier.remove(i), ..v };
        if is_stale(v, e) {
            (popped, Verdict::Continue)
        } else if r.node == v.goal {
            (v, Verdict::Found(e.index))
        } else if v.steps >= v.max_steps {
            (v, Verdict::Deadline(e.index))
        } else if !g.contains_key(v.goal) {
            (v, Verdict::Need(v.goal))
        } else if !g.contains_key(r.node) {
            (v, Verdict::Need(r.node))
        } else {
            match successors_of(g, winter, g[r.node], v.model) {
                Err(GraphError::NotFound(id)) => (v, Verdict::Need(id)),
                Err(err) => (v, Verdict::Failed(err)),
                Ok(s) => {
                    let w = relax_all(popped, g, e.index, s);
                    (SearchView { steps: v.steps + 1, max_steps: v.max_steps, ..w }, Verdict::Continue)
                },
            }
        }
    }
}

pub open spec fn budget(v: SearchView) -> int {
    if v.steps <= v.max_steps {
        v.max_steps - v.steps
    } else {
        0
    }
}

/// Steps until the search stops.
pub open spec fn run_spec(v: SearchView, g: Map<i64, Node>, winter: bool) -> (SearchView, Verdict)
    decreases budget(v), v.frontier.len(),
    via run_spec_decreases
{
    let (w, verdict) = step(v, g, winter);
    if verdict == Verdict::Continue {
        run_spec(w, g, winter)
    } else {
        (w, verdict)
    }
}

pub proof fn lemma_first_min_exists(f: Seq<Entry>)
    requires
        f.len() > 0,
    ensures
        is_first_min(f, first_min(f)),
    decreases f.len(),
{
    if f.len() == 1 {
        assert(is_first_min(f, 0));
    } else {
        let g = f.drop_last();
        lemma_first_min_exists(g);
        let m = first_min(g);
        assert(is_first_min(g, m));
        if key_lt(f.last(), f[m]) {
            assert forall|k: int| 0 <= k < f.len() - 1 implies key_lt(
                f[f.len() - 1],
                #[trigger] f[k],
            ) by {
                assert(g[k] == f[k]);
                if k > m {
                    assert(!key_lt(g[k], g[m]));
                } else if k < m {
                    assert(key_lt(g[m], g[k]));
                }
            }
            assert(is_first_min(f, f.len() - 1));
        } else {
            assert forall|k: int| 0 <= k < m implies key_lt(f[m], #[trigger] f[k]) by {
                assert(g[k] == f[k]);
            }
            assert forall|k: int| m < k < f.len() implies !key_lt(#[trigger] f[k], f[m]) by {
                if k < f.len() - 1 {
                    assert(g[k] == f[k]);
                }
            }
            assert(is_first_min(f, m));
        }
    }
}

#[via_fn]
proof fn run_spec_decreases(v: SearchView, g: Map<i64, Node>, winter: bool) {
    if v.frontier.len() > 0 {
        lemma_first_min_exists(v.frontier);
    }
}

/// Record `i` was reached from an earlier record along an edge of `g`, and
/// its cost is its parent's plus that edge's.
pub open spec fn record_ok(v: SearchView, g: Map<i64, Node>, winter: bool, i: int) -> bool {
    let r = v.records[i];
    &&& r.parent is Some
    &&& (r.parent->Some_0 as int) < i
    &&& r.cost == v.records[r.parent->Some_0 as int].cost + r.step
    &&& is_edge(g, winter, v.model, v.records[r.parent->Some_0 as int].node, r.node, r.step)
}

/// The invariant of a search over the graph `g`.
pub open spec fn wf(v: SearchView, g: Map<i64, Node>, winter: bool) -> bool {
    &&& 1 <= v.records.len() <= usize::MAX
    &&& v.records[0] == Record { node: v.start, parent: None, cost: 0, step: 0 }
    &&& forall|i: int| 1 <= i < v.records.len() ==> #[trigger] record_ok(v, g, winter, i)
    &&& forall|i: int| 0 <= i < v.records.len() ==> 0 <= #[trigger] v.records[i].cost <= MAX_COST
    &&& forall|k: i64| #[trigger]
        v.best.contains_key(k) ==> (v.best[k] as int) < v.records.len() && v.records[v.best[k] as int].node == k
    &&& forall|i: int|
        0 <= i < v.records.len() ==> v.best.contains_key(#[trigger] v.records[i].node)
            && v.records[v.best[v.records[i].node] as int].cost <= v.records[i].cost
    &&& forall|j: int|
        0 <= j < v.frontier.len() ==> (#[trigger] v.frontier[j]).index < v.records.len()
            && v.frontier[j].cost == v.records[v.frontier[j].index as int].cost
    &&& 0 <= v.steps <= v.max_steps <= u64::MAX
}

/// The nodes from the start to record `i`, following parents.
pub open spec fn chain(records: Seq<Record>, i: int) -> Seq<i64>
    decreases i,
{
    if 0 <= i < records.len() {
        match records[i].parent {
            Some(p) => if (p as int) < i {
                chain(records, p as int).push(records[i].node)
            } else {
                seq![records[i].node]
            },
            None => seq![records[i].node],
        }
    } else {
        Seq::empty()
    }
}

/// The edge costs from the start to record `i`, following parents.
pub open spec fn chain_steps(records: Seq<Record>, i: int) -> Seq<i64>
    decreases i,
{
    if 0 <= i < records.len() {
        match records[i].parent {
            Some(p) => if (p as int) < i {
                chain_steps(records, p as int).push(records[i].step)
            } else {
                Seq::empty()
            },
            None => Seq::empty(),
        }
    } else {
        Seq::empty()
    }
}

/// `path` follows edges of `g` whose costs are `costs`, one per move.
pub open spec fn is_walk(g: Map<i64, Node>, winter: bool, model: Model, path: Seq<i64>, costs: Seq<i64>) -> bool {
    &&& path.len() == costs.len() + 1
    &&& forall|k: int| 0 <= k < costs.len() ==> is_edge(g, winter, model, path[k], path[k + 1], #[trigger] costs[k])
}

pub open spec fn sum(s: Seq<i64>) -> int
    decreases s.len(),
{
    if s.len() == 0 {
        0
    } else {
        sum(s.drop_last()) + s.last()
    }
}

proof fn lemma_first_min_unique(f: Seq<Entry>, i: int)
    requires
        is_first_min(f, i),
    ensures
        first_min(f) == i,
{
    lemma_first_min_exists(f);
    let m = first_min(f);
    if m < i {
        assert(key_lt(f[i], f[m]));
    } else if m > i {
        assert(key_lt(f[m], f[i]));
    }
}

pub proof fn lemma_pop_wf(v: SearchView, g: Map<i64, Node>, winter: bool, i: int)
    requires
        wf(v, g, winter),
        0 <= i < v.frontier.len(),
    ensures
        wf(SearchView { frontier: v.frontier.remove(i), ..v }, g, winter),
{
    let w = SearchView { frontier: v.frontier.remove(i), ..v };
    assert forall|i: int| 1 <= i < w.records.len() implies #[trigger] record_ok(w, g, winter, i) by {
        assert(record_ok(v, g, winter, i));
    }
    assert forall|j: int| 0 <= j < w.frontier.len() implies (#[trigger] w.frontier[j]).index
        < w.records.len() && w.frontier[j].cost == w.records[w.frontier[j].index as int].cost by {
        if j < i {
            assert(w.frontier[j] == v.frontier[j]);
        } else {
            assert(w.frontier[j] == v.frontier[j + 1]);
        }
    }
}

pub proof fn lemma_steps_wf(v: SearchView, g: Map<i64, Node>, winter: bool, steps: int)
    requires
        wf(v, g, winter),
        0 <= steps <= v.max_steps,
    ensures
        wf(SearchView { steps, ..v }, g, winter),
{
    let w = SearchView { steps, ..v };
    assert forall|i: int| 1 <= i < w.records.len() implies #[trigger] record_ok(w, g, winter, i) by {
        assert(record_ok(v, g, winter, i));
    }
}

proof fn lemma_init_wf(start: i64, goal: i64, model: Model, max_steps: u64, g: Map<i64, Node>, winter: bool)
    ensures
        wf(init_view(start, goal, model, max_steps as int), g, winter),
{
    let v = init_view(start, goal, model, max_steps as int);
    assert(v.records[0].node == start);
    assert forall|k: i64| #[trigger] v.best.contains_key(k) implies (v.best[k] as int) < v.records.len()
        && v.records[v.best[k] as int].node == k by {
        assert(k == start);
    }
}

pub proof fn lemma_relax_one_wf(v: SearchView, g: Map<i64, Node>, winter: bool, from: usize, edge: (i64, i64))
    requires
        wf(v, g, winter),
        (from as int) < v.records.len(),
        is_edge(g, winter, v.model, v.records[from as int].node, edge.0, edge.1),
        0 <= edge.1,
    ensures
        wf(relax_one(v, g, from, edge), g, winter),
{
    let w = relax_one(v, g, from, edge);
    let new_cost = v.records[from as int].cost + edge.1;
    if new_cost <= MAX_COST && v.records.len() < usize::MAX && !(v.best.contains_key(edge.0) && v.records[v.best[edge.0] as int].cost
        <= new_cost) {
        let idx = v.records.len();
        assert forall|i: int| 1 <= i < w.records.len() implies #[trigger] record_ok(w, g, winter, i) by {
            if i < idx {
                assert(record_ok(v, g, winter, i));
            }
        }
        assert forall|k: i64| #[trigger]
            w.best.contains_key(k) implies (w.best[k] as int) < w.records.len()
            && w.records[w.best[k] as int].node == k by {
            if k != edge.0 {
                assert(v.best.contains_key(k));
            }
        }
        assert forall|i: int| 0 <= i < w.records.len() implies w.best.contains_key(
            #[trigger] w.records[i].node,
        ) && w.records[w.best[w.records[i].node] as int].cost <= w.records[i].cost by {
            if i < idx {
                assert(w.records[i] == v.records[i]);
                assert(v.best.contains_key(v.records[i].node));
            }
        }
        assert forall|j: int| 0 <= j < w.frontier.len() implies (#[trigger] w.frontier[j]).index
            < w.records.len() && w.frontier[j].cost == w.records[w.frontier[j].index as int].cost by {
            if j < v.frontier.len() {
                assert(w.frontier[j] == v.frontier[j]);
            }
        }
        assert forall|i: int| 0 <= i < w.records.len() implies 0 <= #[trigger] w.records[i].cost
            <= MAX_COST by {
            if i < idx {
                assert(w.records[i] == v.records[i]);
            }
        }
    }
}

/// Along the parents of a record, the search has followed edges of the
/// graph from the start, and the record's cost is the sum of their costs.
pub proof fn lemma_chain(v: SearchView, g: Map<i64, Node>, winter: bool, i: int)
    requires
        wf(v, g, winter),
        0 <= i < v.records.len(),
    ensures
        chain(v.records, i).len() >= 1,
        chain(v.records, i)[0] == v.start,
        chain(v.records, i).last() == v.records[i].node,
        is_walk(g, winter, v.model, chain(v.records, i), chain_steps(v.records, i)),
        sum(chain_steps(v.records, i)) == v.records[i].cost,
    decreases i,
{
    if i > 0 {
        assert(record_ok(v, g, winter, i));
        let p = v.records[i].parent->Some_0 as int;
        lemma_chain(v, g, winter, p);
        let c = chain(v.records, i);
        let cp = chain(v.records, p);
        let s = chain_steps(v.records, i);
        let sp = chain_steps(v.records, p);
        assert(c == cp.push(v.records[i].node));
        assert(s == sp.push(v.records[i].step));
        assert(s.drop_last() =~= sp);
        assert forall|k: int| 0 <= k < s.len() implies is_edge(
            g,
            winter,
            v.model,
            c[k],
            c[k + 1],
            #[trigger] s[k],
        ) by {
            if k < sp.len() {
                assert(c[k] == cp[k]);
                assert(c[k + 1] == cp[k + 1]);
                assert(s[k] == sp[k]);
            } else {
                assert(c[k] == cp.last());
            }
        }
    }
}

/// A search stays valid when the graph gains a node it did not hold, as a
/// caller does after `run` asked for that node.
pub proof fn lemma_insert_keeps_wf(v: SearchView, g: Map<i64, Node>, winter: bool, added: Node)
    requires
        wf(v, g, winter),
        !g.contains_key(added.id),
    ensures
        wf(v, g.insert(added.id, added), winter),
{
    let h = g.insert(added.id, added);
    assert forall|i: int| 1 <= i < v.records.len() implies #[trigger] record_ok(v, h, winter, i) by {
        assert(record_ok(v, g, winter, i));
        let r = v.records[i];
        lemma_insert_keeps_edges(g, winter, v.model, added, v.records[r.parent->Some_0 as int].node, r.node, r.step);
    }
}

/// Relaxing an edge that is no cheaper than the best record of its target
/// node changes nothing: neither that node's recorded cost nor its parent,
/// nor the frontier.
pub proof fn lemma_worse_entry_changes_nothing(v: SearchView, g: Map<i64, Node>, from: usize, edge: (i64, i64))
    requires
        v.best.contains_key(edge.0),
        v.records[v.best[edge.0] as int].cost <= v.records[from as int].cost + edge.1,
    ensures
        relax_one(v, g, from, edge) == v,
{
}

impl Search {
    /// A search from `start` to `goal` under `model` that gives up after
    /// `max_steps` expansions.
    pub fn new(start: i64, goal: i64, model: Model, max_steps: u64) -> (r: Search)
        ensures
            r@ == init_view(start, goal, model, max_steps as int),
            forall|g: Map<i64, Node>, winter: bool| wf(r@, g, winter),
    {
        let mut records: Vec<Record> = Vec::new();
        records.push(Record { node: start, parent: None, cost: 0, step: 0 });
        let mut best: HashMap<i64, usize> = HashMap::new();
        best.insert(start, 0);
        let mut frontier: Vec<Entry> = Vec::new();
        frontier.push(Entry { estimate: 0, cost: 0, index: 0 });
        let r = Search { records, best, frontier, start, goal, model, steps: 0, max_steps };
        proof {
            assert(r@.records =~= init_view(start, goal, model, max_steps as int).records);
            assert(r@.best =~= init_view(start, goal, model, max_steps as int).best);
            assert(r@.frontier =~= init_view(start, goal, model, max_steps as int).frontier);
            assert forall|g: Map<i64, Node>, winter: bool| wf(r@, g, winter) by {
                lemma_init_wf(start, goal, model, max_steps, g, winter);
            }
        }
        r
    }

    /// Ends the search at the next candidate: its deadline becomes now.
    pub fn expire(&mut self)
        ensures
            final(self)@ == (SearchView { max_steps: old(self)@.steps, ..old(self)@ }),
    {
        self.max_steps = self.steps;
    }

    /// The number of expansions so far.
    pub fn steps(&self) -> (r: u64)
        ensures
            r == self@.steps,
    {
        self.steps
    }

    fn first_min_index(&self) -> (r: usize)
        requires
            self@.frontier.len() > 0,
        ensures
            is_first_min(self@.frontier, r as int),
    {
        let f = &self.frontier;
        let mut m: usize = 0;
        let mut j: usize = 1;
        while j < f.len()
            invariant
                f@ == self@.frontier,
                f@.len() > 0,
                0 <= m < j <= f@.len(),
                forall|k: int| 0 <= k < m ==> key_lt(f@[m as int], #[trigger] f@[k]),
                forall|k: int| m < k < j ==> !key_lt(#[trigger] f@[k], f@[m as int]),
            decreases f@.len() - j,
        {
            let a = f[j];
            let b = f[m];
            if a.estimate < b.estimate || (a.estimate == b.estimate && a.cost < b.cost) {
                assert forall|k: int| 0 <= k < j implies key_lt(f@[j as int], #[trigger] f@[k]) by {
                    if k < m {
                        assert(key_lt(f@[m as int], f@[k]));
                    } else if k > m {
                        assert(!key_lt(f@[k], f@[m as int]));
                    }
                }
                m = j;
            }
            j = j + 1;
        }
        m
    }

    /// The nodes from the start to record `index`.
    fn path_to(&self, index: usize) -> (r: Vec<i64>)
        requires
            (index as int) < self@.records.len(),
        ensures
            r@ == chain(self@.records, index as int),
        decreases index,
    {
        let rec = self.records[index];
        match rec.parent {
            Some(p) => if p < index {
                let mut v = self.path_to(p);
                v.push(rec.node);
                v
            } else {
                let mut v: Vec<i64> = Vec::new();
                v.push(rec.node);
                assert(v@ =~= seq![rec.node]);
                v
            },
            None => {
                let mut v: Vec<i64> = Vec::new();
                v.push(rec.node);
                assert(v@ =~= seq![rec.node]);
                v
            },
        }
    }

    /// The nodes from the start to record `index` and the record's cost.
    pub fn route_to(&self, index: usize) -> (r: (Vec<i64>, i64))
        requires
            (index as int) < self@.records.len(),
        ensures
            r.0@ == chain(self@.records, index as int),
            r.1 == self@.records[index as int].cost,
    {
        (self.path_to(index), self.records[index].cost)
    }

    fn relax(&mut self, g: &Graph, from: usize, edges: &Vec<(i64, i64)>, goal_node: &Node)
        requires
            wf(old(self)@, g@, g.winter),
            (from as int) < old(self)@.records.len(),
            g@.contains_key(old(self)@.goal),
            *goal_node == g@[old(self)@.goal],
            g@.contains_key(old(self)@.records[from as int].node),
            successors_of(g@, g.winter, g@[old(self)@.records[from as int].node], old(self)@.model)
                == Ok::<Seq<(i64, i64)>, GraphError>(edges@),
            forall|j: int|
                0 <= j < edges@.len() ==> 0 <= #[trigger] edges@[j].1 && g@.contains_key(
                    edges@[j].0,
                ),
        ensures
            final(self)@ == relax_all(old(self)@, g@, from, edges@),
            wf(final(self)@, g@, g.winter),
            final(self)@.steps == old(self)@.steps,
            final(self)@.max_steps == old(self)@.max_steps,
            final(self)@.start == old(self)@.start,
            final(self)@.goal == old(self)@.goal,
            final(self)@.model == old(self)@.model,
    {
        let ghost v0 = self@;
        let mut k: usize = 0;
        while k < edges.len()
            invariant
                wf(self@, g@, g.winter),
                0 <= k <= edges@.len(),
                self@ == relax_all(v0, g@, from, edges@.take(k as int)),
                (from as int) < self@.records.len(),
                self@.records[from as int] == v0.records[from as int],
                self@.goal == v0.goal,
                self@.start == v0.start,
                self@.model == v0.model,
                self@.steps == v0.steps,
                self@.max_steps == v0.max_steps,
                g@.contains_key(v0.goal),
                *goal_node == g@[v0.goal],
                g@.contains_key(v0.records[from as int].node),
                successors_of(g@, g.winter, g@[v0.records[from as int].node], v0.model) == Ok::<
                    Seq<(i64, i64)>,
                    GraphError,
                >(edges@),
                forall|j: int|
                    0 <= j < edges@.len() ==> 0 <= #[trigger] edges@[j].1 && g@.contains_key(
                        edges@[j].0,
                    ),
            decreases edges@.len() - k,
        {
            let (nb, w) = edges[k];
            let ghost before = self@;
            proof {
                assert(edges@.take(k + 1).drop_last() =~= edges@.take(k as int));
                assert(edges@.take(k + 1).last() == edges@[k as int]);
                assert(edges@[k as int] == (nb, w));
                assert(successors_of(g@, g.winter, g@[v0.records[from as int].node], v0.model)->Ok_0[k as int] == (nb, w));
                assert(is_edge(g@, g.winter, before.model, before.records[from as int].node, nb, w));
                lemma_relax_one_wf(before, g@, g.winter, from, (nb, w));
            }
            self.relax_one(g, from, nb, w, goal_node);
            k = k + 1;
        }
        assert(edges@.take(k as int) =~= edges@);
    }

    fn relax_one(&mut self, g: &Graph, from: usize, nb: i64, w: i64, goal_node: &Node)
        requires
            wf(old(self)@, g@, g.winter),
            (from as int) < old(self)@.records.len(),
            0 <= w,
            g@.contains_key(nb),
            g@.contains_key(old(self)@.goal),
            *goal_node == g@[old(self)@.goal],
        ensures
            final(self)@ == relax_one(old(self)@, g@, from, (nb, w)),
    {
        let cf = self.records[from].cost;
        if w > MAX_COST - cf {
            return;
        }
        let idx = self.records.len();
        if idx == usize::MAX {
            return;
        }
        let new_cost = cf + w;
        match self.best.get(&nb) {
            Some(b) => {
                if self.records[*b].cost <= new_cost {
                    return;
                }
            },
            None => {},
        }
        let target = match g.get_node(nb) {
            Ok(n) => n,
            Err(_) => {
                return;
            },
        };
        let h = target.distance(goal_node);
        self.records.push(Record { node: nb, parent: Some(from), cost: new_cost, step: w });
        self.best.insert(nb, idx);
        self.frontier.push(Entry { estimate: new_cost + h as i64, cost: new_cost, index: idx });
    }

    /// Advances the search until it reaches the goal, runs out of frontier,
    /// passes its deadline, or needs a node the graph does not hold.
    pub fn run(&mut self, g: &Graph) -> (r: Verdict)
        requires
            wf(old(self)@, g@, g.winter),
        ensures
            run_spec(old(self)@, g@, g.winter) == (final(self)@, r),
            wf(final(self)@, g@, g.winter),
            r != Verdict::Continue,
            final(self)@.start == old(self)@.start,
            final(self)@.goal == old(self)@.goal,
            final(self)@.model == old(self)@.model,
            r matches Verdict::Found(i) ==> (i as int) < final(self)@.records.len()
                && final(self)@.records[i as int].node == final(self)@.goal,
            r matches Verdict::Deadline(i) ==> (i as int) < final(self)@.records.len(),
    {
        loop
            invariant
                wf(self@, g@, g.winter),
                self@.start == old(self)@.start,
                self@.goal == old(self)@.goal,
                self@.model == old(self)@.model,
                run_spec(old(self)@, g@, g.winter) == run_spec(self@, g@, g.winter),
            decreases budget(self@), self@.frontier.len(),
        {
            if self.frontier.len() == 0 {
                assert(run_spec(self@, g@, g.winter) == (self@, Verdict::NoPath));
                return Verdict::NoPath;
            }
            let i = self.first_min_index();
            proof {
                lemma_first_min_unique(self@.frontier, i as int);
            }
            let e = self.frontier[i];
            let rec = self.records[e.index];
            let bi: usize = match self.best.get(&rec.node) {
                Some(b) => *b,
                None => {
                    proof {
                        assert(false);
                    }
                    0
                },
            };
            if rec.cost > self.records[bi].cost {
                proof {
                    lemma_pop_wf(self@, g@, g.winter, i as int);
                }
                self.frontier.remove(i);
                continue;
            }
            if rec.node == self.goal {
                return Verdict::Found(e.index);
            }
            if self.steps >= self.max_steps {
                return Verdict::Deadline(e.index);
            }
            let goal_node = match g.get_node(self.goal) {
                Ok(n) => n,
                Err(_) => {
                    return Verdict::Need(self.goal);
                },
            };
            let node = match g.get_node(rec.node) {
                Ok(n) => n,
                Err(_) => {
                    return Verdict::Need(rec.node);
                },
            };
            match node.successors(g, self.model) {
                Err(GraphError::NotFound(id)) => {
                    return Verdict::Need(id);
                },
                Err(err) => {
                    return Verdict::Failed(err);
                },
                Ok(edges) => {
                    let ghost v = self@;
                    self.frontier.remove(i);
                    proof {
                        lemma_pop_wf(v, g@, g.winter, i as int);
                    }
                    self.relax(g, e.index, &edges, goal_node);
                    proof {
                        lemma_steps_wf(self@, g@, g.winter, self@.steps + 1);
                    }
                    self.steps = self.steps + 1;
                },
            }
        }
    }
}

/// Why a search returned no route to the goal.
#[derive(Clone, Debug, PartialEq, Eq)]
pub enum SearchError {
    /// The frontier ran out: the goal cannot be reached.
    NoPathFound,
    /// The deadline passed. The path leads from the start to the candidate
    /// that was being examined, not necessarily to the goal.
    DeadlineExceeded { path: Vec<i64>, cost: i64 },
    /// The graph could not provide a node or an edge.
    Access(GraphError),
}

/// What `astar` returns for the final state and verdict of a search.
pub open spec fn outcome_of(res: (SearchView, Verdict), r: Result<(Vec<i64>, i64), SearchError>) -> bool {
    let v = res.0;
    match res.1 {
        Verdict::Found(i) => match r {
            Ok(x) => x.0@ == chain(v.records, i as int) && x.1 == v.records[i as int].cost,
            Err(_) => false,
        },
        Verdict::Deadline(i) => match r {
            Err(SearchError::DeadlineExceeded { path, cost }) => path@ == chain(v.records, i as int)
                && cost == v.records[i as int].cost,
            _ => false,
        },
        Verdict::NoPath => r matches Err(SearchError::NoPathFound),
        Verdict::Need(id) => match r {
            Err(SearchError::Access(e)) => e == GraphError::NotFound(id),
            _ => false,
        },
        Verdict::Failed(f) => match r {
            Err(SearchError::Access(e)) => e == f,
            _ => false,
        },
        Verdict::Continue => false,
    }
}

/// Searches the graph for a cheapest-first route from `start` to `end` under
/// `model`, giving up after `max_steps` expansions. The route is the list of
/// node ids from `start` to `end` and its accumulated cost.
///
/// The result is determined by the graph and the arguments alone. A route
/// that is returned, whether complete or cut short by the deadline, follows
/// edges of the graph from `start`, and its cost is the sum of their costs.
/// `NoPathFound` means that no walk from `start` to `end` costs at most
/// `MAX_COST`.
///
/// The estimate that orders the frontier is the straight-line distance to
/// the goal. Cost factors below one make it overestimate at times, so the
/// route found is not guaranteed to be the cheapest.
/// Two results that agree with the same final search state are the same
/// route: as `astar` is determined by its arguments, searching twice with
/// the same start, goal, profile, deadline and graph gives the same path and
/// the same cost.
pub proof fn lemma_same_outcome(
    res: (SearchView, Verdict),
    r1: Result<(Vec<i64>, i64), SearchError>,
    r2: Result<(Vec<i64>, i64), SearchError>,
)
    requires
        outcome_of(res, r1),
        outcome_of(res, r2),
    ensures
        r1 is Ok <==> r2 is Ok,
        r1 is Ok ==> r1->Ok_0.0@ == r2->Ok_0.0@ && r1->Ok_0.1 == r2->Ok_0.1,
        r1 matches Err(SearchError::DeadlineExceeded { path, cost }) ==> (r2 matches Err(
            SearchError::DeadlineExceeded { path: p2, cost: c2 },
        ) && path@ == p2@ && cost == c2),
        r1 matches Err(SearchError::NoPathFound) <==> r2 matches Err(SearchError::NoPathFound),
        r1 matches Err(SearchError::Access(e)) ==> r2 == Err::<(Vec<i64>, i64), SearchError>(
            SearchError::Access(e),
        ),
{
}

pub fn astar(graph: &Graph, start: i64, end: i64, model: Model, max_steps: u64) -> (r: Result<
    (Vec<i64>, i64),
    SearchError,
>)
    ensures
        outcome_of(run_spec(init_view(start, end, model, max_steps as int), graph@, graph.winter), r),
        match r {
            Ok((path, cost)) => {
                &&& path@.len() >= 1
                &&& path@[0] == start
                &&& path@.last() == end
                &&& exists|w: Seq<i64>| is_walk(graph@, graph.winter, model, path@, w) && sum(w) == cost
            },
            Err(SearchError::DeadlineExceeded { path, cost }) => {
                &&& path@.len() >= 1
                &&& path@[0] == start
                &&& exists|w: Seq<i64>| is_walk(graph@, graph.winter, model, path@, w) && sum(w) == cost
            },
            _ => true,
        },
        r matches Err(SearchError::NoPathFound) && run_spec(
            init_view(start, end, model, max_steps as int),
            graph@,
            graph.winter,
        ).0.records.len() < usize::MAX ==> forall|path: Seq<i64>, costs: Seq<i64>|
            #![trigger is_walk(graph@, graph.winter, model, path, costs)]
            is_walk(graph@, graph.winter, model, path, costs) && path[0] == start && path.last() == end
                ==> sum(costs) > MAX_COST,
{
    proof {
        let v0 = init_view(start, end, model, max_steps as int);
        lemma_init_wf(start, end, model, max_steps, graph@, graph.winter);
        lemma_init_complete(start, end, model, max_steps as int, graph@, graph.winter);
        lemma_run_complete(v0, graph@, graph.winter);
    }
    let mut search = Search::new(start, end, model, max_steps);
    let verdict = search.run(graph);
    match verdict {
        Verdict::Found(i) => {
            proof {
                lemma_chain(search@, graph@, graph.winter, i as int);
            }
            Ok(search.route_to(i))
        },
        Verdict::Deadline(i) => {
            proof {
                lemma_chain(search@, graph@, graph.winter, i as int);
            }
            let (path, cost) = search.route_to(i);
            Err(SearchError::DeadlineExceeded { path, cost })
        },
        Verdict::NoPath => {
            proof {
                let v = search@;
                if v.records.len() < usize::MAX {
                    assert forall|path: Seq<i64>, costs: Seq<i64>|
                        is_walk(graph@, graph.winter, model, path, costs) && path[0] == start
                            && path.last() == end implies sum(costs) > MAX_COST by {
                        lemma_exhausted_means_unreachable(v, graph@, graph.winter, path, costs);
                    }
                }
            }
            Err(SearchError::NoPathFound)
        },
        Verdict::Need(id) => Err(SearchError::Access(GraphError::NotFound(id))),
        Verdict::Failed(e) => Err(SearchError::Access(e)),
        Verdict::Continue => Err(SearchError::NoPathFound),
    }
}

} // verus!
