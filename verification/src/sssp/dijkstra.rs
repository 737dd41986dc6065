//! Dijkstra's point-to-point SSSP engine.

use vstd::prelude::*;

verus! {

use crate::graph::{
    Graph,
    SearchError,
    edge_connects,
    istep,
    lemma_node_index,
    node_index,
    walk_from_to,
    walk_cost,
    walk_linked,
    walk_step,
};
use crate::path::{Path, from_positions};
use crate::dist::dijkstra::{relax, inv_relaxed};
use crate::dist::parents_ok;
use crate::sssp::{Routing, SingleShortestPath, routing_ok};
use crate::{INFINITY, sat_add_spec};

/// Crossing the visited frontier bounds a walk from below: along any walk
/// out of the origin, either the stop node's annotation is already within
/// the cumulative cost, or the walk is still inside the visited region,
/// where annotations never exceed the cumulative cost.
proof fn lemma_walk_bound(
    g: Graph,
    dist: Seq<u64>,
    visited: Seq<bool>,
    w: Seq<(int, int)>,
    t: int,
    i: int,
)
    requires
        g.wf(),
        dist.len() == g.nodes@.len(),
        visited.len() == g.nodes@.len(),
        inv_relaxed(g, dist, visited),
        walk_linked(g, w),
        0 <= i < w.len(),
        0 <= w[0].0 < g.nodes@.len(),
        w[0].1 == 0,
        dist[w[0].0] == 0,
        0 <= t < g.nodes@.len(),
        forall|v: int| 0 <= v < g.nodes@.len() && !visited[v] ==> dist[t] <= #[trigger] dist[v],
    ensures
        dist[t] <= w[i].1 || (0 <= w[i].0 < g.nodes@.len() && visited[w[i].0] && dist[w[i].0]
            <= w[i].1),
    decreases i,
{
    if i == 0 {
        if !visited[w[0].0] {
            assert(dist[t] <= dist[w[0].0]);
        }
    } else {
        lemma_walk_bound(g, dist, visited, w, t, i - 1);
        assert(walk_step(g, w, i - 1));
        let e = choose|e: int|
            #[trigger] edge_connects(g, e, w[i - 1].0, w[i].0) && w[i].1 == w[i - 1].1 + g.edges@[
                e].cost;
        let c = g.edges@[e].cost;
        assert(w[i].1 >= w[i - 1].1);
        if !(dist[t] <= w[i - 1].1) {
            let ed = g.edges@[e];
            assert(dist[w[i].0] <= sat_add_spec(dist[w[i - 1].0], c));
            if !visited[w[i].0] {
                assert(dist[t] <= dist[w[i].0]);
            }
        }
    }
}

/// The Dijkstra SSSP engine: the same relaxation loop as the colouring
/// engine, seeded at the source and short-circuited once the destination is
/// selected. The path itself is then reconstructed by walking the recorded
/// parents backward from the destination; every parent was settled strictly
/// earlier, so the walk descends the settlement ranks and must reach the
/// source.
pub struct DijkstraSSSP;

#[verifier::rlimit(60)]
fn dijkstra_shortest(graph: &Graph, src: &str, dst: &str) -> (r: Result<Path, SearchError>)
    requires
        graph.wf(),
    ensures
        routing_ok(*graph, r, src@, dst@),
{
    let srci = match graph.find_node(src) {
        Some(i) => i,
        None => {
            return Err(SearchError::UnknownNode);
        },
    };
    let dsti = match graph.find_node(dst) {
        Some(i) => i,
        None => {
            return Err(SearchError::UnknownNode);
        },
    };
    proof {
        assert(graph.has_node(src@));
        assert(graph.has_node(dst@));
        lemma_node_index(*graph, src@);
        lemma_node_index(*graph, dst@);
        assert(node_index(*graph, src@) == srci as int);
        assert(node_index(*graph, dst@) == dsti as int);
    }
    let n = graph.nodes.len();
    let (dist, visited, par, ranks) = relax(graph, srci, Some(dsti));
    let ghost rank: Seq<int> = ranks@;
    if dist[dsti] == INFINITY {
        // The relaxation exhausted the nodes annotated below the sentinel
        // without reaching the destination: no walk between the endpoints
        // costs less than the sentinel.
        proof {
            assert forall|w: Seq<(int, int)>| #[trigger] walk_from_to(
                *graph,
                w,
                node_index(*graph, src@),
                node_index(*graph, dst@),
            ) implies walk_cost(w) >= INFINITY by {
                lemma_walk_bound(*graph, dist@, visited@, w, dsti as int, w.len() - 1);
            }
        }
        return Err(SearchError::Disconnected);
    }
    // Walk the parent records backward from the destination over node
    // positions; each step descends the settlement ranks.
    let mut ihops: Vec<(usize, u64)> = Vec::new();
    ihops.push((dsti, dist[dsti]));
    let mut cur: usize = dsti;
    while cur != srci
        invariant
            graph.wf(),
            n == graph.nodes@.len(),
            dist@.len() == n,
            par@.len() == n,
            rank.len() == n,
            srci < n,
            dsti < n,
            graph.has_node(src@),
            graph.has_node(dst@),
            dist@[srci as int] == 0,
            parents_ok(*graph, dist@, par@, rank, srci as int),
            forall|v: int| 0 <= v < n ==> 0 <= #[trigger] rank[v],
            cur < n,
            dist@[cur as int] < INFINITY,
            ihops@.len() >= 1,
            ihops@[0] == (cur, dist@[cur as int]),
            ihops@[ihops@.len() - 1] == (dsti, dist@[dsti as int]),
            forall|k: int|
                0 <= k < ihops@.len() ==> (#[trigger] ihops@[k]).0 < n && ihops@[k].1 == dist@[
                    ihops@[k].0 as int] && ihops@[k].1 < INFINITY,
            forall|k: int| 0 <= k < ihops@.len() - 1 ==> #[trigger] istep(*graph, ihops@, k),
        decreases rank[cur as int],
    {
        let p = par[cur];
        let ghost beste: int = choose|e: int|
            #[trigger] edge_connects(*graph, e, par@[cur as int] as int, cur as int) && dist@[
                cur as int] == dist@[par@[cur as int] as int] + graph.edges@[e].cost;
        proof {
            assert(dist@[cur as int] < INFINITY && cur as int != srci as int);
            assert(edge_connects(*graph, beste, p as int, cur as int) && dist@[cur as int]
                == dist@[p as int] + graph.edges@[beste].cost);
        }
        let dp = dist[p];
        let ghost oldihops = ihops@;
        ihops.insert(0, (p, dp));
        proof {
            assert(ihops@ =~= seq![(p, dp)] + oldihops);
            assert forall|k: int| 0 <= k < ihops@.len() - 1 implies #[trigger] istep(
                *graph,
                ihops@,
                k,
            ) by {
                if k == 0 {
                    assert(dist@[cur as int] == dp + graph.edges@[beste].cost);
                    assert(sat_add_spec(dp, graph.edges@[beste].cost) == dist@[cur as int]);
                    assert(ihops@[0] == (p, dp) && ihops@[1] == (cur, dist@[cur as int]));
                    assert(edge_connects(*graph, beste, ihops@[0].0 as int, ihops@[1].0 as int));
                } else {
                    assert(istep(*graph, oldihops, k - 1));
                    let e = choose|e: int|
                        #[trigger] edge_connects(
                            *graph,
                            e,
                            oldihops[k - 1].0 as int,
                            oldihops[k].0 as int,
                        ) && oldihops[k].1 == sat_add_spec(
                            oldihops[k - 1].1,
                            graph.edges@[e].cost,
                        );
                    assert(ihops@[k] == oldihops[k - 1] && ihops@[k + 1] == oldihops[k]);
                    assert(edge_connects(*graph, e, ihops@[k].0 as int, ihops@[k + 1].0 as int));
                }
            }
            assert(rank[p as int] < rank[cur as int]);
        }
        cur = p;
    }
    // Transcribe the positions into node identifiers.
    let p = from_positions(graph, &ihops);
    proof {
        assert(p.hops@[0].0@ == src@);
        assert(p.hops@[p.hops@.len() - 1].0@ == dst@);
        assert(p.spec_cost() == dist@[dsti as int]);
        // No walk between the endpoints costs less than the returned path.
        assert forall|w: Seq<(int, int)>| #[trigger] walk_from_to(
            *graph,
            w,
            node_index(*graph, src@),
            node_index(*graph, dst@),
        ) implies p.spec_cost() <= walk_cost(w) by {
            lemma_walk_bound(*graph, dist@, visited@, w, dsti as int, w.len() - 1);
        }
        // The returned path itself witnesses that cost, as a walk with
        // exact integer cumulative costs.
        let iw = ihops@.map_values(|h: (usize, u64)| (h.0 as int, h.1 as int));
        assert forall|k: int| 0 <= k < iw.len() - 1 implies #[trigger] walk_step(
            *graph,
            iw,
            k,
        ) by {
            assert(istep(*graph, ihops@, k));
            let e = choose|e: int|
                #[trigger] edge_connects(*graph, e, ihops@[k].0 as int, ihops@[k + 1].0 as int)
                    && ihops@[k + 1].1 == sat_add_spec(ihops@[k].1, graph.edges@[e].cost);
            assert(ihops@[k + 1].1 < INFINITY);
            assert(iw[k + 1].1 == iw[k].1 + graph.edges@[e].cost);
            assert(edge_connects(*graph, e, iw[k].0, iw[k + 1].0));
        }
        assert(walk_from_to(*graph, iw, srci as int, dsti as int) && walk_cost(iw)
            == p.spec_cost());
    }
    Ok(p)
}

impl Routing for DijkstraSSSP {
    fn shortest(graph: &Graph, src: &str, dst: &str) -> (r: Result<Path, SearchError>) {
        dijkstra_shortest(graph, src, dst)
    }
}

impl SingleShortestPath for DijkstraSSSP {
    fn shortest(&mut self, graph: &Graph, src: &str, dst: &str) -> (r: Result<
        Path,
        SearchError,
    >) {
        dijkstra_shortest(graph, src, dst)
    }
}

} // verus!
