//! What an exhausted frontier means: once the search runs out of entries,
//! no walk from the start reaches the goal within the cost bound.
//!
//! The argument rests on an invariant kept by every step: each node the
//! search has recorded either still has its best record queued, or has been
//! settled, meaning that every edge leaving it has been relaxed against its
//! best cost. The goal is never settled, since popping its best entry ends
//! the search.
use vstd::prelude::*;
use crate::cost::Model;
use crate::graph::{is_edge, lemma_edge_nonnegative, successors_of, GraphError};
use crate::node::Node;
use crate::search::{
    first_min, init_view, is_first_min, is_stale, is_walk, relax_all, relax_one, run_spec, step,
    sum, wf, SearchView, Verdict, MAX_COST, lemma_first_min_exists, lemma_pop_wf,
    lemma_relax_one_wf, lemma_steps_wf,
};

verus! {

/// The cost of the best record of node `x`.
pub open spec fn best_cost(v: SearchView, x: i64) -> int {
    v.records[v.best[x] as int].cost as int
}

/// The edge `e` has been relaxed from a record of cost `c`: its target has a
/// record at most `c` plus the edge's cost, or that sum is beyond the bound,
/// or the record table is full.
pub open spec fn relaxed(v: SearchView, c: int, e: (i64, i64)) -> bool {
    ||| (v.best.contains_key(e.0) && best_cost(v, e.0) <= c + e.1)
    ||| c + e.1 > MAX_COST
    ||| v.records.len() >= usize::MAX
}

/// Some frontier entry stands for record `i`.
pub open spec fn queued(v: SearchView, i: int) -> bool {
    exists|j: int| 0 <= j < v.frontier.len() && (#[trigger] v.frontier[j]).index == i
}

/// Every edge leaving node `x` has been relaxed against its best cost.
pub open spec fn settled(v: SearchView, g: Map<i64, Node>, winter: bool, x: i64) -> bool {
    &&& g.contains_key(x)
    &&& successors_of(g, winter, g[x], v.model) is Ok
    &&& forall|j: int|
        0 <= j < successors_of(g, winter, g[x], v.model)->Ok_0.len() ==> relaxed(
            v,
            best_cost(v, x),
            #[trigger] successors_of(g, winter, g[x], v.model)->Ok_0[j],
        )
}

/// The invariant behind exhaustion: every recorded node is queued or
/// settled (the goal is never settled), and the best record of a node is the
/// only one of its records at that cost.
pub open spec fn complete(v: SearchView, g: Map<i64, Node>, winter: bool) -> bool {
    &&& forall|x: i64| #[trigger]
        v.best.contains_key(x) ==> queued(v, v.best[x] as int) || (x != v.goal && settled(
            v,
            g,
            winter,
            x,
        ))
    &&& forall|i: int|
        0 <= i < v.records.len() && v.records[i].cost == best_cost(v, #[trigger] v.records[i].node)
            ==> i == v.best[v.records[i].node] as int
}

/// `w` is a later state of the search than `v`: records and frontier only
/// grow, recorded nodes stay recorded at no higher cost, and a node whose
/// best record changed or is new has that record queued.
pub open spec fn extends(v: SearchView, w: SearchView) -> bool {
    &&& v.records.len() <= w.records.len()
    &&& forall|i: int| 0 <= i < v.records.len() ==> #[trigger] w.records[i] == v.records[i]
    &&& v.frontier.len() <= w.frontier.len()
    &&& forall|j: int| 0 <= j < v.frontier.len() ==> #[trigger] w.frontier[j] == v.frontier[j]
    &&& forall|x: i64| #[trigger]
        v.best.contains_key(x) ==> w.best.contains_key(x) && best_cost(w, x) <= best_cost(v, x) && (
        w.best[x] == v.best[x] || queued(w, w.best[x] as int))
    &&& forall|x: i64| #[trigger]
        w.best.contains_key(x) && !v.best.contains_key(x) ==> queued(w, w.best[x] as int)
    &&& w.goal == v.goal
    &&& w.model == v.model
    &&& w.start == v.start
    &&& w.steps == v.steps
    &&& w.max_steps == v.max_steps
}

proof fn lemma_relaxed_stays(v: SearchView, w: SearchView, c: int, e: (i64, i64))
    requires
        relaxed(v, c, e),
        extends(v, w),
    ensures
        relaxed(w, c, e),
{
    if v.best.contains_key(e.0) && best_cost(v, e.0) <= c + e.1 {
        assert(w.best.contains_key(e.0));
    }
}

proof fn lemma_extends_trans(u: SearchView, v: SearchView, w: SearchView)
    requires
        extends(u, v),
        extends(v, w),
    ensures
        extends(u, w),
{
    assert forall|x: i64| #[trigger] u.best.contains_key(x) implies w.best.contains_key(x)
        && best_cost(w, x) <= best_cost(u, x) && (w.best[x] == u.best[x] || queued(
        w,
        w.best[x] as int,
    )) by {
        assert(v.best.contains_key(x));
        if w.best[x] == v.best[x] && v.best[x] != u.best[x] {
            let j = choose|j: int| 0 <= j < v.frontier.len() && (#[trigger] v.frontier[j]).index
                == v.best[x] as int;
            assert(w.frontier[j] == v.frontier[j]);
        }
    }
    assert forall|x: i64| #[trigger]
        w.best.contains_key(x) && !u.best.contains_key(x) implies queued(w, w.best[x] as int) by {
        if v.best.contains_key(x) && w.best[x] == v.best[x] {
            let j = choose|j: int| 0 <= j < v.frontier.len() && (#[trigger] v.frontier[j]).index
                == v.best[x] as int;
            assert(w.frontier[j] == v.frontier[j]);
        }
    }
}

proof fn lemma_extends_refl(v: SearchView)
    ensures
        extends(v, v),
{
}

/// Relaxing the first `n` edges leaving the best record `from` of its node.
proof fn lemma_relax_prefix(
    v: SearchView,
    g: Map<i64, Node>,
    winter: bool,
    from: usize,
    s: Seq<(i64, i64)>,
    n: int,
)
    requires
        wf(v, g, winter),
        forall|i: int|
            0 <= i < v.records.len() && v.records[i].cost == best_cost(
                v,
                #[trigger] v.records[i].node,
            ) ==> i == v.best[v.records[i].node] as int,
        (from as int) < v.records.len(),
        v.best[v.records[from as int].node] == from,
        g.contains_key(v.records[from as int].node),
        g.contains_key(v.goal),
        successors_of(g, winter, g[v.records[from as int].node], v.model) == Ok::<
            Seq<(i64, i64)>,
            GraphError,
        >(s),
        0 <= n <= s.len(),
    ensures
        ({
            let w = relax_all(v, g, from, s.take(n));
            &&& wf(w, g, winter)
            &&& extends(v, w)
            &&& w.best[v.records[from as int].node] == from
            &&& forall|j: int|
                0 <= j < n ==> relaxed(w, v.records[from as int].cost as int, #[trigger] s[j])
            &&& forall|i: int|
                0 <= i < w.records.len() && w.records[i].cost == best_cost(
                    w,
                    #[trigger] w.records[i].node,
                ) ==> i == w.best[w.records[i].node] as int
        }),
    decreases n,
{
    let u = v.records[from as int].node;
    let c = v.records[from as int].cost as int;
    if n == 0 {
        assert(s.take(0) =~= Seq::<(i64, i64)>::empty());
        lemma_extends_refl(v);
    } else {
        lemma_relax_prefix(v, g, winter, from, s, n - 1);
        let p = relax_all(v, g, from, s.take(n - 1));
        assert(s.take(n).drop_last() =~= s.take(n - 1));
        assert(s.take(n).last() == s[n - 1]);
        let e = s[n - 1];
        let w = relax_one(p, g, from, e);
        assert(relax_all(v, g, from, s.take(n)) == w);
        assert(p.records[from as int] == v.records[from as int]);
        assert(p.model == v.model);
        assert(successors_of(g, winter, g[u], p.model)->Ok_0[n - 1] == (e.0, e.1));
        assert(is_edge(g, winter, p.model, u, e.0, e.1));
        lemma_edge_nonnegative(g, winter, p.model, u, e.0, e.1);
        lemma_relax_one_wf(p, g, winter, from, e);
        let new_cost = c + e.1;
        let added = !(new_cost > MAX_COST || p.records.len() >= usize::MAX) && !(
        p.best.contains_key(e.0) && p.records[p.best[e.0] as int].cost <= new_cost);
        // the step from p to w
        if added {
            let idx = p.records.len();
            assert(w.frontier[p.frontier.len() as int].index == idx);
            assert(queued(w, idx as int));
            assert forall|x: i64| #[trigger] p.best.contains_key(x) implies w.best.contains_key(x)
                && best_cost(w, x) <= best_cost(p, x) && (w.best[x] == p.best[x] || queued(
                w,
                w.best[x] as int,
            )) by {
                if x != e.0 {
                    assert(w.records[p.best[x] as int] == p.records[p.best[x] as int]);
                }
            }
            assert(extends(p, w));
            assert forall|i: int|
                0 <= i < w.records.len() && w.records[i].cost == best_cost(
                    w,
                    #[trigger] w.records[i].node,
                ) implies i == w.best[w.records[i].node] as int by {
                if i < idx {
                    assert(w.records[i] == p.records[i]);
                    if w.records[i].node != e.0 {
                        assert(w.records[p.best[w.records[i].node] as int] == p.records[p.best[w.records[i].node] as int]);
                    } else {
                        assert(p.best.contains_key(p.records[i].node));
                    }
                }
            }
            assert(e.0 != u || new_cost >= c);
            assert(p.best.contains_key(u));
            assert(best_cost(p, u) == c);
        } else {
            assert(w == p);
        }
        lemma_extends_trans(v, p, w);
        assert forall|j: int| 0 <= j < n implies relaxed(w, c, #[trigger] s[j]) by {
            if j < n - 1 {
                lemma_relaxed_stays(p, w, c, s[j]);
            }
        }
    }
}

/// A fresh search satisfies the invariant.
pub proof fn lemma_init_complete(start: i64, goal: i64, model: Model, max_steps: int, g: Map<i64, Node>, winter: bool)
    ensures
        complete(init_view(start, goal, model, max_steps), g, winter),
{
    let v = init_view(start, goal, model, max_steps);
    assert forall|x: i64| #[trigger] v.best.contains_key(x) implies queued(v, v.best[x] as int) || (
    x != v.goal && settled(v, g, winter, x)) by {
        assert(v.frontier[0].index == 0);
    }
}

/// One step keeps the search valid and the invariant true; a step that
/// reports an empty frontier leaves the state as it was.
pub proof fn lemma_step_complete(v: SearchView, g: Map<i64, Node>, winter: bool)
    requires
        wf(v, g, winter),
        complete(v, g, winter),
    ensures
        wf(step(v, g, winter).0, g, winter),
        complete(step(v, g, winter).0, g, winter),
        step(v, g, winter).1 == Verdict::NoPath ==> v.frontier.len() == 0,
{
    if v.frontier.len() == 0 {
        return;
    }
    let i = first_min(v.frontier);
    lemma_first_min_exists(v.frontier);
    assert(is_first_min(v.frontier, i));
    let e = v.frontier[i];
    let r = v.records[e.index as int];
    let popped = SearchView { frontier: v.frontier.remove(i), ..v };
    lemma_pop_wf(v, g, winter, i);
    assert(v.best.contains_key(r.node));
    // every node other than the popped entry's stays queued or settled
    assert forall|x: i64| #[trigger] popped.best.contains_key(x) && x != r.node implies queued(
        popped,
        popped.best[x] as int,
    ) || (x != popped.goal && settled(popped, g, winter, x)) by {
        assert(v.best.contains_key(x));
        if queued(v, v.best[x] as int) {
            let j = choose|j: int| 0 <= j < v.frontier.len() && (#[trigger] v.frontier[j]).index
                == v.best[x] as int;
            assert(j != i);
            if j < i {
                assert(popped.frontier[j] == v.frontier[j]);
            } else {
                assert(popped.frontier[j - 1] == v.frontier[j]);
            }
        }
    }
    if is_stale(v, e) {
        assert forall|x: i64| #[trigger] popped.best.contains_key(x) implies queued(
            popped,
            popped.best[x] as int,
        ) || (x != popped.goal && settled(popped, g, winter, x)) by {
            if x == r.node {
                if queued(v, v.best[x] as int) {
                    let j = choose|j: int| 0 <= j < v.frontier.len() && (#[trigger] v.frontier[j]).index
                        == v.best[x] as int;
                    assert(j != i);
                    if j < i {
                        assert(popped.frontier[j] == v.frontier[j]);
                    } else {
                        assert(popped.frontier[j - 1] == v.frontier[j]);
                    }
                }
            }
        }
        assert(step(v, g, winter).0 == popped);
        return;
    }
    if r.node == v.goal || v.steps >= v.max_steps || !g.contains_key(v.goal) || !g.contains_key(
        r.node,
    ) {
        return;
    }
    match successors_of(g, winter, g[r.node], v.model) {
        Err(_) => {},
        Ok(s) => {
            let from = e.index;
            assert(v.records[v.best[r.node] as int].cost <= r.cost);
            assert(from == v.best[r.node]);
            lemma_relax_prefix(popped, g, winter, from, s, s.len() as int);
            assert(s.take(s.len() as int) =~= s);
            let w = relax_all(popped, g, from, s);
            let fin = SearchView { steps: v.steps + 1, max_steps: v.max_steps, ..w };
            assert(step(v, g, winter).0 == fin);
            lemma_steps_wf(w, g, winter, v.steps + 1);
            assert(fin == SearchView { steps: v.steps + 1, ..w });
            assert forall|x: i64| #[trigger] w.best.contains_key(x) implies queued(w, w.best[x] as int)
                || (x != w.goal && settled(w, g, winter, x)) by {
                if !popped.best.contains_key(x) {
                } else if x == r.node {
                    assert(w.best[x] == from);
                    assert(best_cost(w, x) == r.cost);
                    assert forall|j: int|
                        0 <= j < successors_of(g, winter, g[x], w.model)->Ok_0.len() implies relaxed(
                        w,
                        best_cost(w, x),
                        #[trigger] successors_of(g, winter, g[x], w.model)->Ok_0[j],
                    ) by {
                        assert(relaxed(w, r.cost as int, s[j]));
                    }
                } else if w.best[x] != popped.best[x] {
                } else if queued(popped, popped.best[x] as int) {
                    let j = choose|j: int| 0 <= j < popped.frontier.len() && (
                    #[trigger] popped.frontier[j]).index == popped.best[x] as int;
                    assert(w.frontier[j] == popped.frontier[j]);
                } else {
                    assert(settled(popped, g, winter, x));
                    assert(best_cost(w, x) == best_cost(popped, x));
                    assert forall|j: int|
                        0 <= j < successors_of(g, winter, g[x], w.model)->Ok_0.len() implies relaxed(
                        w,
                        best_cost(w, x),
                        #[trigger] successors_of(g, winter, g[x], w.model)->Ok_0[j],
                    ) by {
                        lemma_relaxed_stays(
                            popped,
                            w,
                            best_cost(popped, x),
                            successors_of(g, winter, g[x], popped.model)->Ok_0[j],
                        );
                    }
                }
            }
            assert(complete(w, g, winter));
            assert forall|x: i64| #[trigger] fin.best.contains_key(x) implies queued(
                fin,
                fin.best[x] as int,
            ) || (x != fin.goal && settled(fin, g, winter, x)) by {
                assert(w.best.contains_key(x));
                if queued(w, w.best[x] as int) {
                    let j = choose|j: int| 0 <= j < w.frontier.len() && (#[trigger] w.frontier[j]).index
                        == w.best[x] as int;
                    assert(fin.frontier[j] == w.frontier[j]);
                }
            }
        },
    }
}

/// Running a search to its end keeps it valid and the invariant true; when
/// it ends for want of entries, the frontier is empty.
pub proof fn lemma_run_complete(v: SearchView, g: Map<i64, Node>, winter: bool)
    requires
        wf(v, g, winter),
        complete(v, g, winter),
    ensures
        wf(run_spec(v, g, winter).0, g, winter),
        complete(run_spec(v, g, winter).0, g, winter),
        run_spec(v, g, winter).1 == Verdict::NoPath ==> run_spec(v, g, winter).0.frontier.len() == 0,
    decreases (if v.steps <= v.max_steps {
        v.max_steps - v.steps
    } else {
        0
    }), v.frontier.len(),
{
    lemma_step_complete(v, g, winter);
    let (w, verdict) = step(v, g, winter);
    if verdict == Verdict::Continue {
        if v.frontier.len() > 0 {
            lemma_first_min_exists(v.frontier);
        }
        lemma_run_complete(w, g, winter);
    }
}

proof fn lemma_sum_prefix(costs: Seq<i64>, k: int)
    requires
        0 <= k <= costs.len(),
        forall|j: int| 0 <= j < costs.len() ==> 0 <= #[trigger] costs[j],
    ensures
        sum(costs.take(k)) <= sum(costs),
        0 <= sum(costs.take(k)),
    decreases costs.len() - k,
{
    assert forall|j: int| 0 <= j < costs.take(k).len() implies 0 <= #[trigger] costs.take(k)[j] by {
        assert(costs.take(k)[j] == costs[j]);
    }
    lemma_sum_nonnegative(costs.take(k));
    if k < costs.len() {
        lemma_sum_prefix(costs, k + 1);
        assert(costs.take(k + 1).drop_last() =~= costs.take(k));
    } else {
        assert(costs.take(k) =~= costs);
        lemma_sum_nonnegative(costs);
    }
}

proof fn lemma_sum_nonnegative(costs: Seq<i64>)
    requires
        forall|j: int| 0 <= j < costs.len() ==> 0 <= #[trigger] costs[j],
    ensures
        0 <= sum(costs),
    decreases costs.len(),
{
    if costs.len() > 0 {
        lemma_sum_nonnegative(costs.drop_last());
    }
}

proof fn lemma_reach(v: SearchView, g: Map<i64, Node>, winter: bool, path: Seq<i64>, costs: Seq<i64>, k: int)
    requires
        wf(v, g, winter),
        complete(v, g, winter),
        v.frontier.len() == 0,
        v.records.len() < usize::MAX,
        is_walk(g, winter, v.model, path, costs),
        path[0] == v.start,
        sum(costs) <= MAX_COST,
        forall|j: int| 0 <= j < costs.len() ==> 0 <= #[trigger] costs[j],
        0 <= k <= costs.len(),
    ensures
        v.best.contains_key(path[k]),
        best_cost(v, path[k]) <= sum(costs.take(k)),
    decreases k,
{
    if k == 0 {
        assert(v.best.contains_key(v.records[0].node));
        assert(costs.take(0) =~= Seq::<i64>::empty());
    } else {
        lemma_reach(v, g, winter, path, costs, k - 1);
        let x = path[k - 1];
        assert(!queued(v, v.best[x] as int));
        assert(settled(v, g, winter, x));
        assert(is_edge(g, winter, v.model, x, path[k], costs[k - 1]));
        let s = successors_of(g, winter, g[x], v.model)->Ok_0;
        let j = choose|j: int| 0 <= j < s.len() && s[j] == (path[k], costs[k - 1]);
        assert(relaxed(v, best_cost(v, x), s[j]));
        assert(costs.take(k).drop_last() =~= costs.take(k - 1));
        lemma_sum_prefix(costs, k);
    }
}

/// When a valid search has emptied its frontier, every walk of the graph
/// from the start to the goal costs more than `MAX_COST`, provided the
/// record table never filled up.
pub proof fn lemma_exhausted_means_unreachable(
    v: SearchView,
    g: Map<i64, Node>,
    winter: bool,
    path: Seq<i64>,
    costs: Seq<i64>,
)
    requires
        wf(v, g, winter),
        complete(v, g, winter),
        v.frontier.len() == 0,
        v.records.len() < usize::MAX,
        is_walk(g, winter, v.model, path, costs),
        path[0] == v.start,
        path.last() == v.goal,
    ensures
        sum(costs) > MAX_COST,
{
    if sum(costs) <= MAX_COST {
        assert forall|j: int| 0 <= j < costs.len() implies 0 <= #[trigger] costs[j] by {
            assert(is_edge(g, winter, v.model, path[j], path[j + 1], costs[j]));
            lemma_edge_nonnegative(g, winter, v.model, path[j], path[j + 1], costs[j]);
        }
        let k = costs.len() as int;
        lemma_reach(v, g, winter, path, costs, k);
        let x = path[k];
        assert(!queued(v, v.best[x] as int));
    }
}

} // verus!
