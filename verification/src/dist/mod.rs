//! Distance colouring: annotating every node of a graph with the minimal
//! cost of a walk to one fixed target node.
//!
//! Edges are traversed symmetrically here, matching the point-to-point
//! routing engine: an edge joins its two endpoints in both directions.

use vstd::prelude::*;

pub mod dijkstra;

verus! {

use crate::graph::{
    Graph,
    SearchError,
    node_index,
    edge_connects,
    walk_from_to,
    walk_cost,
    walk_step,
};
use crate::{INFINITY, sat_add_spec};

/// Stability: no edge offers a shortcut, in either direction. Together with
/// a zero at the target and soundness this pins every annotation to the
/// exact least walk cost.
pub open spec fn dist_stable(g: Graph, dist: Seq<u64>) -> bool {
    forall|e: int|
        0 <= e < g.edges@.len() ==> {
            let ed = #[trigger] g.edges@[e];
            &&& dist[ed.left as int] <= sat_add_spec(dist[ed.right as int], ed.cost)
            &&& dist[ed.right as int] <= sat_add_spec(dist[ed.left as int], ed.cost)
        }
}

/// Soundness: every finite annotation is witnessed by an actual walk to the
/// target of exactly that cost.
pub open spec fn dist_sound(g: Graph, dist: Seq<u64>, target: int) -> bool {
    forall|v: int|
        0 <= v < g.nodes@.len() && #[trigger] dist[v] < INFINITY ==> exists|w: Seq<(int, int)>|
            walk_from_to(g, w, v, target) && walk_cost(w) == dist[v]
}

/// Every node with a finite annotation, other than the origin itself,
/// records a parent: a neighbouring node across some edge whose annotation
/// accounts exactly for that edge's cost, and which was settled strictly
/// earlier (its rank is smaller). This is what lets a path be reconstructed
/// by walking backward, and what makes that walk terminate: following
/// parents strictly descends the ranks.
pub(crate) open spec fn parents_ok(
    g: Graph,
    dist: Seq<u64>,
    par: Seq<usize>,
    rank: Seq<int>,
    origin: int,
) -> bool {
    forall|v: int|
        0 <= v < g.nodes@.len() && #[trigger] dist[v] < INFINITY && v != origin ==> {
            let p = par[v] as int;
            &&& 0 <= p < g.nodes@.len()
            &&& p != v
            &&& exists|e: int|
                #[trigger] edge_connects(g, e, p, v) && dist[v] == dist[p] + g.edges@[e].cost
            &&& rank[p] < rank[v]
        }
}

/// The complete colouring contract: one annotation per node, zero at the
/// target, no edge shortcut, and a witnessing walk for every finite value.
pub open spec fn colouring_ok(g: Graph, dist: Seq<u64>, target: int) -> bool {
    &&& dist.len() == g.nodes@.len()
    &&& 0 <= target < g.nodes@.len()
    &&& dist[target] == 0
    &&& dist_stable(g, dist)
    &&& dist_sound(g, dist, target)
}

/// An abstraction over algorithms that compute the shortest distance to a
/// particular target node, for every node.
pub trait Distancing {
    /// Computes, for every node of `graph`, the minimal cost of a walk to
    /// `dst`. The annotation of an unreachable node is `INFINITY`.
    fn shortest_all(graph: &Graph, dst: &str) -> (r: Result<Vec<u64>, SearchError>)
        requires
            graph.wf(),
        ensures
            match r {
                Ok(dist) => graph.has_node(dst@) && colouring_ok(
                    *graph,
                    dist@,
                    node_index(*graph, dst@),
                ),
                Err(e) => e == SearchError::UnknownNode && !graph.has_node(dst@),
            },
    ;
}

/// A stable colouring with a zero at the target bounds every walk to the
/// target from below: no walk from `w[0]` can cost less than the
/// annotation of `w[0]`. With soundness this makes each annotation the
/// exact least walk cost.
pub proof fn lemma_dist_lower_bound(g: Graph, dist: Seq<u64>, target: int, w: Seq<(int, int)>)
    requires
        g.wf(),
        dist.len() == g.nodes@.len(),
        0 <= target < g.nodes@.len(),
        dist[target] == 0,
        dist_stable(g, dist),
        walk_from_to(g, w, w[0].0, target),
        0 <= w[0].0 < g.nodes@.len(),
    ensures
        dist[w[0].0] <= walk_cost(w),
    decreases w.len(),
{
    if w.len() == 1 {
        assert(w[0].0 == target);
        assert(walk_cost(w) == 0);
    } else {
        assert(walk_step(g, w, 0));
        let e = choose|e: int|
            #[trigger] edge_connects(g, e, w[0].0, w[1].0) && w[1].1 == w[0].1 + g.edges@[e].cost;
        let c = g.edges@[e].cost as int;
        let tail = w.subrange(1, w.len() as int);
        assert forall|i: int| 0 <= i < tail.len() - 1 implies #[trigger] walk_step(
            g,
            tail,
            i,
        ) by {
            assert(walk_step(g, w, i + 1));
            let e2 = choose|e2: int|
                #[trigger] edge_connects(g, e2, w[i + 1].0, w[i + 2].0) && w[i + 2].1 == w[i + 1].1
                    + g.edges@[e2].cost;
            assert(edge_connects(g, e2, tail[i].0, tail[i + 1].0));
        }
        crate::graph::lemma_walk_shift(g, tail, -c);
        let shifted = tail.map_values(|h: (int, int)| (h.0, h.1 + (-c)));
        assert(shifted[0].0 == w[1].0 && shifted[0].1 == 0);
        assert(shifted[shifted.len() - 1].0 == target);
        assert(walk_from_to(g, shifted, shifted[0].0, target));
        assert(0 <= w[1].0 < g.nodes@.len());
        lemma_dist_lower_bound(g, dist, target, shifted);
        assert(dist[w[1].0] <= walk_cost(shifted));
        assert(walk_cost(shifted) == walk_cost(w) - c);
        let ed = g.edges@[e];
        assert(dist[w[0].0] <= sat_add_spec(dist[w[1].0], ed.cost));
    }
}

/// There is only one complete colouring of a graph for a given target:
/// every engine that meets the colouring contract computes the same
/// annotations.
pub proof fn lemma_colouring_unique(g: Graph, d1: Seq<u64>, d2: Seq<u64>, target: int)
    requires
        g.wf(),
        colouring_ok(g, d1, target),
        colouring_ok(g, d2, target),
    ensures
        d1 =~= d2,
{
    assert forall|v: int| 0 <= v < g.nodes@.len() implies d1[v] == d2[v] by {
        if d1[v] < INFINITY {
            let w = choose|w: Seq<(int, int)>|
                walk_from_to(g, w, v, target) && walk_cost(w) == d1[v];
            lemma_dist_lower_bound(g, d2, target, w);
        }
        if d2[v] < INFINITY {
            let w = choose|w: Seq<(int, int)>|
                walk_from_to(g, w, v, target) && walk_cost(w) == d2[v];
            lemma_dist_lower_bound(g, d1, target, w);
        }
    }
}

} // verus!
