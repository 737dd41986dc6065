//! Dijkstra's algorithm as a colouring procedure: annotates every node with
//! the cost of the cheapest walk to some target node.
//!
//! The relaxation loop itself is shared with the point-to-point routing
//! engine, which seeds it at the source and stops early.

use vstd::prelude::*;

verus! {

use vstd::pervasive::VecAdditionalExecFns;
use crate::graph::{
    Graph,
    SearchError,
    lemma_node_index,
    edge_connects,
    walk_from_to,
    walk_cost,
    walk_step,
    lemma_walk_shift,
};
use crate::dist::{Distancing, dist_sound, parents_ok};
use crate::{INFINITY, sat_add, sat_add_spec};

/// How many entries of the sequence are set.
spec fn count_true(s: Seq<bool>) -> int
    decreases s.len(),
{
    if s.len() == 0 {
        0
    } else {
        count_true(s.drop_last()) + if s.last() {
            1int
        } else {
            0int
        }
    }
}

proof fn lemma_count_true_bounds(s: Seq<bool>)
    ensures
        0 <= count_true(s) <= s.len(),
    decreases s.len(),
{
    if s.len() > 0 {
        lemma_count_true_bounds(s.drop_last());
    }
}

proof fn lemma_count_true_update(s: Seq<bool>, i: int)
    requires
        0 <= i < s.len(),
        !s[i],
    ensures
        count_true(s.update(i, true)) == count_true(s) + 1,
    decreases s.len(),
{
    let t = s.update(i, true);
    if i == s.len() - 1 {
        assert(t.drop_last() =~= s.drop_last());
    } else {
        assert(t.drop_last() =~= s.drop_last().update(i, true));
        lemma_count_true_update(s.drop_last(), i);
    }
}

/// Stepping across one edge into a walk to `t` yields a walk to `t` whose
/// cost grows by that edge's cost.
proof fn lemma_walk_extend(g: Graph, w: Seq<(int, int)>, x: int, e: int, t: int)
    requires
        walk_from_to(g, w, w[0].0, t),
        edge_connects(g, e, x, w[0].0),
    ensures
        exists|w2: Seq<(int, int)>|
            walk_from_to(g, w2, x, t) && walk_cost(w2) == walk_cost(w) + g.edges@[e].cost,
{
    let c = g.edges@[e].cost as int;
    lemma_walk_shift(g, w, c);
    let shifted = w.map_values(|h: (int, int)| (h.0, h.1 + c));
    let neww = seq![(x, 0int)] + shifted;
    assert forall|i: int| 0 <= i < neww.len() - 1 implies #[trigger] walk_step(g, neww, i) by {
        if i == 0 {
            assert(neww[0] == (x, 0int));
            assert(neww[1] == (w[0].0, w[0].1 + c));
            assert(edge_connects(g, e, neww[0].0, neww[1].0));
        } else {
            assert(walk_step(g, shifted, i - 1));
            let e2 = choose|e2: int|
                #[trigger] edge_connects(g, e2, shifted[i - 1].0, shifted[i].0) && shifted[i].1
                    == shifted[i - 1].1 + g.edges@[e2].cost;
            assert(edge_connects(g, e2, neww[i].0, neww[i + 1].0));
        }
    }
    assert(neww[neww.len() - 1] == shifted[shifted.len() - 1]);
    assert(walk_from_to(g, neww, x, t) && walk_cost(neww) == walk_cost(w) + c);
}

/// Every visited node's annotation is no larger than any unvisited node's,
/// and visited annotations are finite.
spec fn inv_frontier(dist: Seq<u64>, visited: Seq<bool>) -> bool {
    &&& forall|u: int, v: int|
        0 <= u < visited.len() && 0 <= v < visited.len() && visited[u] && !visited[v]
            ==> #[trigger] dist[u] <= #[trigger] dist[v]
    &&& forall|u: int| 0 <= u < visited.len() && #[trigger] visited[u] ==> dist[u] < INFINITY
}

/// Every edge incident to a visited node has been fully relaxed.
pub(crate) open spec fn inv_relaxed(g: Graph, dist: Seq<u64>, visited: Seq<bool>) -> bool {
    forall|e: int|
        0 <= e < g.edges@.len() ==> {
            let ed = #[trigger] g.edges@[e];
            &&& (visited[ed.left as int] ==> dist[ed.right as int] <= sat_add_spec(
                dist[ed.left as int],
                ed.cost,
            ))
            &&& (visited[ed.right as int] ==> dist[ed.left as int] <= sat_add_spec(
                dist[ed.right as int],
                ed.cost,
            ))
        }
}

/// Parent records during a relaxation run: like
/// [`parents_ok`](crate::dist::parents_ok), but every parent is moreover
/// visited, or is the currently selected (not yet marked) node `sel`.
spec fn parents_sel_ok(
    g: Graph,
    dist: Seq<u64>,
    visited: Seq<bool>,
    par: Seq<usize>,
    rank: Seq<int>,
    origin: int,
    sel: int,
) -> bool {
    &&& parents_ok(g, dist, par, rank, origin)
    &&& forall|v: int|
        0 <= v < g.nodes@.len() && #[trigger] dist[v] < INFINITY && v != origin ==> (visited[par[
            v] as int] || par[v] as int == sel)
}

/// The core relaxation loop shared by the colouring and routing engines.
///
/// Seeds the tentative distance of `origin` with zero and repeatedly
/// selects an unvisited node of smallest finite tentative distance (linear
/// scan, ties to the lowest position), relaxing all its incident edges in
/// both directions. When `stop` names a node, the loop short-circuits as
/// soon as that node is selected; otherwise it runs until only unreachable
/// nodes are left.
///
/// Besides the annotations and the visited marks, the run records each
/// annotated node's parent — the node whose relaxation last improved it —
/// together with a ghost settlement rank, so that a caller can reconstruct
/// a walk to the origin by following parents, descending the ranks.
pub(crate) fn relax(graph: &Graph, origin: usize, stop: Option<usize>) -> (r: (
    Vec<u64>,
    Vec<bool>,
    Vec<usize>,
    Ghost<Seq<int>>,
))
    requires
        graph.wf(),
        origin < graph.nodes@.len(),
        match stop {
            Some(t) => t < graph.nodes@.len(),
            None => true,
        },
    ensures
        r.0@.len() == graph.nodes@.len(),
        r.1@.len() == graph.nodes@.len(),
        r.2@.len() == graph.nodes@.len(),
        r.3@.len() == graph.nodes@.len(),
        r.0@[origin as int] == 0,
        dist_sound(*graph, r.0@, origin as int),
        parents_ok(*graph, r.0@, r.2@, r.3@, origin as int),
        forall|v: int| 0 <= v < graph.nodes@.len() ==> 0 <= #[trigger] r.3@[v],
        inv_relaxed(*graph, r.0@, r.1@),
        stop is None ==> forall|v: int|
            0 <= v < graph.nodes@.len() && !r.1@[v] ==> r.0@[v] == INFINITY,
        match stop {
            Some(t) => forall|v: int|
                0 <= v < graph.nodes@.len() && !r.1@[v] ==> r.0@[t as int] <= #[trigger] r.0@[v],
            None => true,
        },
{
    let n = graph.nodes.len();
    let mut dist: Vec<u64> = vec![INFINITY; n];
    let mut visited: Vec<bool> = vec![false; n];
    let mut par: Vec<usize> = vec![0; n];
    let ghost mut rank: Seq<int> = Seq::new(n as nat, |i: int| 0);
    let ghost mut round: int = 1;
    dist.set(origin, 0);
    proof {
        let w0: Seq<(int, int)> = seq![(origin as int, 0int)];
        assert(walk_from_to(*graph, w0, origin as int, origin as int) && walk_cost(w0) == 0);
    }
    loop
        invariant
            graph.wf(),
            n == graph.nodes@.len(),
            dist@.len() == n,
            visited@.len() == n,
            par@.len() == n,
            rank.len() == n,
            round >= 1,
            forall|v: int| 0 <= v < n ==> 0 <= #[trigger] rank[v] < round,
            origin < n,
            dist@[origin as int] == 0,
            dist_sound(*graph, dist@, origin as int),
            parents_ok(*graph, dist@, par@, rank, origin as int),
            forall|v: int|
                0 <= v < n && #[trigger] dist@[v] < INFINITY && v != origin ==> visited@[par@[
                    v] as int],
            inv_frontier(dist@, visited@),
            inv_relaxed(*graph, dist@, visited@),
            match stop {
                Some(t) => t < n,
                None => true,
            },
        ensures
            dist@.len() == n,
            visited@.len() == n,
            par@.len() == n,
            rank.len() == n,
            dist@[origin as int] == 0,
            dist_sound(*graph, dist@, origin as int),
            parents_ok(*graph, dist@, par@, rank, origin as int),
            forall|v: int| 0 <= v < n ==> 0 <= #[trigger] rank[v],
            inv_relaxed(*graph, dist@, visited@),
            stop is None ==> forall|v: int| 0 <= v < n && !visited@[v] ==> dist@[v] == INFINITY,
            match stop {
                Some(t) => t < n && forall|v: int|
                    0 <= v < n && !visited@[v] ==> dist@[t as int] <= #[trigger] dist@[v],
                None => true,
            },
        decreases n - count_true(visited@),
    {
        proof {
            lemma_count_true_bounds(visited@);
        }
        // Select the unvisited node with the smallest finite tentative
        // distance; `n` acts as the "none found" sentinel.
        let mut best: usize = n;
        let mut best_d: u64 = INFINITY;
        let mut i: usize = 0;
        while i < n
            invariant
                n == dist@.len(),
                n == visited@.len(),
                i <= n,
                best <= n,
                best < n ==> !visited@[best as int] && dist@[best as int] == best_d && best_d
                    < INFINITY,
                best == n ==> best_d == INFINITY,
                forall|j: int| 0 <= j < i && !visited@[j] ==> best_d <= #[trigger] dist@[j],
            decreases n - i,
        {
            if !visited[i] && dist[i] < best_d {
                best = i;
                best_d = dist[i];
            }
            i = i + 1;
        }
        if best == n {
            assert forall|v: int| 0 <= v < n && !visited@[v] implies dist@[v] == INFINITY by {
                assert(best_d <= dist@[v]);
            }
            break ;
        }
        let m = best;
        let dm = best_d;
        if let Some(t) = stop {
            if t == m {
                break ;
            }
        }
        // Relax every edge incident to the selected node, in both
        // directions.
        let ecount = graph.edges.len();
        let mut j: usize = 0;
        while j < ecount
            invariant
                graph.wf(),
                n == graph.nodes@.len(),
                ecount == graph.edges@.len(),
                j <= ecount,
                dist@.len() == n,
                visited@.len() == n,
                par@.len() == n,
                rank.len() == n,
                round >= 1,
                forall|v: int| 0 <= v < n ==> 0 <= #[trigger] rank[v] <= round,
                rank[m as int] < round,
                origin < n,
                dist@[origin as int] == 0,
                m < n,
                !visited@[m as int],
                dist@[m as int] == dm,
                dm < INFINITY,
                dist_sound(*graph, dist@, origin as int),
                parents_sel_ok(*graph, dist@, visited@, par@, rank, origin as int, m as int),
                inv_frontier(dist@, visited@),
                inv_relaxed(*graph, dist@, visited@),
                forall|v: int| 0 <= v < n && !visited@[v] ==> dm <= #[trigger] dist@[v],
                forall|e: int|
                    0 <= e < j ==> {
                        let ed = #[trigger] graph.edges@[e];
                        &&& (ed.left == m ==> dist@[ed.right as int] <= sat_add_spec(dm, ed.cost))
                        &&& (ed.right == m ==> dist@[ed.left as int] <= sat_add_spec(dm, ed.cost))
                    },
            decreases ecount - j,
        {
            let ed_left = graph.edges[j].left;
            let ed_right = graph.edges[j].right;
            let ed_cost = graph.edges[j].cost;
            let neigh: usize = if ed_left == m && ed_right != m {
                ed_right
            } else if ed_left != m && ed_right == m {
                ed_left
            } else {
                j = j + 1;
                continue ;
            };
            let nd = sat_add(dm, ed_cost);
            if nd < dist[neigh] {
                proof {
                    assert(!visited@[neigh as int]) by {
                        if visited@[neigh as int] {
                            assert(dist@[neigh as int] <= dist@[m as int]);
                        }
                    }
                }
                let ghost olddist = dist@;
                let ghost oldpar = par@;
                let ghost oldrank = rank;
                dist.set(neigh, nd);
                par.set(neigh, m);
                proof {
                    rank = rank.update(neigh as int, round);
                    assert(nd >= dm);
                    assert(nd == dm + ed_cost);
                    // Soundness: the improved annotation is witnessed by
                    // stepping across this edge and following the selected
                    // node's witness walk.
                    let wm = choose|w: Seq<(int, int)>|
                        walk_from_to(*graph, w, m as int, origin as int) && walk_cost(w)
                            == olddist[m as int];
                    assert(edge_connects(*graph, j as int, neigh as int, m as int));
                    lemma_walk_extend(*graph, wm, neigh as int, j as int, origin as int);
                    assert forall|v: int|
                        0 <= v < n && #[trigger] dist@[v] < INFINITY implies exists|
                        w: Seq<(int, int)>,
                    |
                        walk_from_to(*graph, w, v, origin as int) && walk_cost(w) == dist@[v] by {
                        if v == neigh as int {
                            let w2 = choose|w2: Seq<(int, int)>|
                                walk_from_to(*graph, w2, neigh as int, origin as int) && walk_cost(
                                    w2,
                                ) == walk_cost(wm) + graph.edges@[j as int].cost;
                            assert(walk_from_to(*graph, w2, v, origin as int) && walk_cost(w2)
                                == dist@[v]);
                        } else {
                            assert(olddist[v] < INFINITY);
                        }
                    }
                    // Parent records: the improved node's parent becomes
                    // the selected node across this edge, ranked at the
                    // current round; every other record involves nodes
                    // whose annotations, parents and ranks did not change.
                    assert forall|v: int|
                        0 <= v < n && #[trigger] dist@[v] < INFINITY && v != origin implies ({
                        let p = par@[v] as int;
                        &&& 0 <= p < n
                        &&& p != v
                        &&& (visited@[p] || p == m as int)
                        &&& exists|e: int|
                            #[trigger] edge_connects(*graph, e, p, v) && dist@[v] == dist@[p]
                                + graph.edges@[e].cost
                        &&& rank[p] < rank[v]
                    }) by {
                        if v == neigh as int {
                            assert(par@[v] == m);
                            assert(edge_connects(*graph, j as int, m as int, v));
                            assert(dist@[v] == dist@[m as int] + graph.edges@[j as int].cost);
                            assert(rank[m as int] == oldrank[m as int] < round == rank[v]);
                        } else {
                            assert(olddist[v] < INFINITY);
                            let p = oldpar[v] as int;
                            assert(par@[v] as int == p);
                            assert(visited@[p] || p == m as int);
                            assert(p != neigh as int);
                            let e = choose|e: int|
                                #[trigger] edge_connects(*graph, e, p, v) && olddist[v] == olddist[
                                    p] + graph.edges@[e].cost;
                            assert(edge_connects(*graph, e, p, v) && dist@[v] == dist@[p]
                                + graph.edges@[e].cost);
                            assert(rank[p] == oldrank[p] && rank[v] == oldrank[v]);
                        }
                    }
                }
            }
            j = j + 1;
        }
        let ghost oldvisited = visited@;
        visited.set(m, true);
        proof {
            lemma_count_true_update(oldvisited, m as int);
            lemma_count_true_bounds(visited@);
            // Marking the selected node visited turns selected-node parents
            // into ordinary visited parents, and closes the round.
            assert forall|v: int|
                0 <= v < n && #[trigger] dist@[v] < INFINITY && v != origin implies visited@[par@[
                v] as int] by {
                assert(oldvisited[par@[v] as int] || par@[v] as int == m as int);
            }
            round = round + 1;
        }
    }
    (dist, visited, par, Ghost(rank))
}

/// Dijkstra's algorithm as a distance-colouring engine.
pub struct Dijkstra;

impl Distancing for Dijkstra {
    fn shortest_all(graph: &Graph, dst: &str) -> (r: Result<Vec<u64>, SearchError>) {
        let dsti = match graph.find_node(dst) {
            Some(i) => i,
            None => {
                return Err(SearchError::UnknownNode);
            },
        };
        proof {
            lemma_node_index(*graph, dst@);
        }
        let (dist, visited, _parents, _ranks) = relax(graph, dsti, None);
        proof {
            assert forall|e: int| 0 <= e < graph.edges@.len() implies {
                let ed = #[trigger] graph.edges@[e];
                &&& dist@[ed.left as int] <= sat_add_spec(dist@[ed.right as int], ed.cost)
                &&& dist@[ed.right as int] <= sat_add_spec(dist@[ed.left as int], ed.cost)
            } by {
                let ed = graph.edges@[e];
                if dist@[ed.right as int] < INFINITY {
                    assert(visited@[ed.right as int]);
                }
                if dist@[ed.left as int] < INFINITY {
                    assert(visited@[ed.left as int]);
                }
            }
        }
        Ok(dist)
    }
}

} // verus!
