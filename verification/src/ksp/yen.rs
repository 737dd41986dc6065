//! A Yen-style KSP strategy: iterative candidate expansion built on a
//! routing engine.

use vstd::prelude::*;

verus! {

use core::marker::PhantomData;
use crate::graph::{Graph, SearchError, node_index, walk_from_to, walk_cost};
use crate::path::{Path, path_ok, path_step, lemma_path_ok_ids, lemma_path_suffix_walk};
use crate::ksp::{MultiRouting, ksp_ok, ksp_first_minimal};
use crate::sssp::{Routing, SingleShortestPath, routing_ok};
use crate::{INFINITY, sat_add, sat_add_spec, lemma_sat_add_assoc};

/// A simplified variant of Yen's algorithm, generic over the routing
/// engine that supplies its shortest paths.
///
/// The first path is the engine's cheapest `src` to `dst` path. Each
/// further round takes the previously found path, and for every hop index
/// builds a candidate by keeping the prefix up to that hop and splicing in
/// a freshly computed cheapest path from the hop to the destination, with
/// costs offset by the prefix's accumulated cost. Candidates accumulate in
/// a set that collapses paths visiting the same node sequence (costs play
/// no part), and each round removes and returns the cheapest candidate.
/// The canonical spur-node/root-path exclusion is deliberately not
/// implemented, so a found path can recur among later candidates. A
/// candidate whose saturating cost has reached the unreachable sentinel
/// names no real cost any more; a round whose cheapest candidate has, stops
/// the expansion.
#[derive(Debug)]
pub struct Yen<S> {
    _sssp: PhantomData<S>,
}

/// An adapter that lets a stateless routing engine stand where a stateful
/// one is expected.
struct StatelessRouting<S> {
    _sssp: PhantomData<S>,
}

impl<S: Routing> SingleShortestPath for StatelessRouting<S> {
    fn shortest(&mut self, graph: &Graph, src: &str, dst: &str) -> (r: Result<
        Path,
        SearchError,
    >) {
        S::shortest(graph, src, dst)
    }
}

/// The shared Yen-style run: at most `k` paths, the first of which is the
/// engine's cost-minimal path between the endpoints. Every returned path's
/// recorded cost stays below the unreachable sentinel: a candidate whose
/// saturating cost reaches the sentinel no longer names a real cost, so
/// expansion stops there instead of returning it.
pub(crate) fn yen_k_shortest<E: SingleShortestPath>(
    engine: &mut E,
    graph: &Graph,
    src: &str,
    dst: &str,
    k: usize,
) -> (r: Result<Vec<Path>, SearchError>)
    requires
        graph.wf(),
    ensures
        ksp_ok(*graph, r, src@, dst@, k as int),
        match r {
            Ok(paths) => ksp_first_minimal(*graph, paths@, src@, dst@, k as int),
            Err(_) => true,
        },
        match r {
            Ok(paths) => k >= 1 ==> paths@.len() >= 1 && forall|w: Seq<(int, int)>|
                #[trigger] walk_from_to(*graph, w, node_index(*graph, src@), node_index(*graph, dst@))
                    ==> paths@[0].spec_cost() <= walk_cost(w),
            Err(_) => true,
        },
        match r {
            Ok(paths) => k >= 1 ==> exists|w: Seq<(int, int)>|
                #[trigger] walk_from_to(*graph, w, node_index(*graph, src@), node_index(*graph, dst@))
                    && walk_cost(w) == paths@[0].spec_cost(),
            Err(_) => true,
        },
{
    let srci = match graph.find_node(src) {
        Some(i) => i,
        None => {
            return Err(SearchError::UnknownNode);
        },
    };
    let dsti = match graph.find_node(dst) {
        Some(i) => i,
        None => {
            return Err(SearchError::UnknownNode);
        },
    };
    proof {
        assert(graph.has_node(src@));
        assert(graph.has_node(dst@));
    }
    if k == 0 {
        return Ok(Vec::new());
    }
    let first = match engine.shortest(graph, src, dst) {
        Ok(p) => p,
        Err(e) => {
            return Err(e);
        },
    };
    let mut shortest: Vec<Path> = Vec::new();
    shortest.push(first);
    let mut candidates: Vec<Path> = Vec::new();
    let mut i: usize = 1;
    while i < k
        invariant
            graph.wf(),
            graph.has_node(src@),
            graph.has_node(dst@),
            1 <= i <= k,
            shortest@.len() == i,
            forall|w: Seq<(int, int)>|
                #[trigger] walk_from_to(*graph, w, node_index(*graph, src@), node_index(*graph, dst@))
                    ==> shortest@[0].spec_cost() <= walk_cost(w),
            exists|w: Seq<(int, int)>|
                #[trigger] walk_from_to(*graph, w, node_index(*graph, src@), node_index(*graph, dst@))
                    && walk_cost(w) == shortest@[0].spec_cost(),
            forall|t: int|
                0 <= t < shortest@.len() ==> {
                    let p = #[trigger] shortest@[t];
                    &&& path_ok(*graph, p)
                    &&& p.hops@[0].0@ == src@
                    &&& p.hops@[p.hops@.len() - 1].0@ == dst@
                    &&& p.spec_cost() < INFINITY
                },
            forall|t: int|
                0 <= t < candidates@.len() ==> {
                    let p = #[trigger] candidates@[t];
                    &&& path_ok(*graph, p)
                    &&& p.hops@[0].0@ == src@
                    &&& p.hops@[p.hops@.len() - 1].0@ == dst@
                },
        ensures
            1 <= shortest@.len() <= k,
            forall|w: Seq<(int, int)>|
                #[trigger] walk_from_to(*graph, w, node_index(*graph, src@), node_index(*graph, dst@))
                    ==> shortest@[0].spec_cost() <= walk_cost(w),
            exists|w: Seq<(int, int)>|
                #[trigger] walk_from_to(*graph, w, node_index(*graph, src@), node_index(*graph, dst@))
                    && walk_cost(w) == shortest@[0].spec_cost(),
            forall|t: int|
                0 <= t < shortest@.len() ==> {
                    let p = #[trigger] shortest@[t];
                    &&& path_ok(*graph, p)
                    &&& p.hops@[0].0@ == src@
                    &&& p.hops@[p.hops@.len() - 1].0@ == dst@
                    &&& p.spec_cost() < INFINITY
                },
        decreases k - i,
    {
        // Expand the previously found path: one candidate per hop index.
        let prevlen = shortest[i - 1].hops.len();
        let mut h: usize = 0;
        while h < prevlen
            invariant
                graph.wf(),
                graph.has_node(src@),
                graph.has_node(dst@),
                1 <= i <= shortest@.len(),
                prevlen == shortest@[i - 1].hops@.len(),
                h <= prevlen,
                forall|t: int|
                    0 <= t < shortest@.len() ==> {
                        let p = #[trigger] shortest@[t];
                        &&& path_ok(*graph, p)
                        &&& p.hops@[0].0@ == src@
                        &&& p.hops@[p.hops@.len() - 1].0@ == dst@
                        &&& p.spec_cost() < INFINITY
                    },
                forall|t: int|
                    0 <= t < candidates@.len() ==> {
                        let p = #[trigger] candidates@[t];
                        &&& path_ok(*graph, p)
                        &&& p.hops@[0].0@ == src@
                        &&& p.hops@[p.hops@.len() - 1].0@ == dst@
                    },
            decreases prevlen - h,
        {
            proof {
                lemma_path_ok_ids(*graph, shortest@[i - 1], h as int);
            }
            let suffix = match engine.shortest(graph, shortest[i - 1].hops[h].0.as_str(), dst) {
                Ok(p) => p,
                Err(e) => {
                    // Neither failure can arise here: the expansion hop
                    // names a node of the graph, and the previously found
                    // path embeds a walk from that hop to the destination
                    // below the sentinel.
                    proof {
                        if e is UnknownNode {
                            assert(false);
                        }
                        if e is Disconnected {
                            lemma_path_suffix_walk(*graph, shortest@[i - 1], h as int);
                            assert(false);
                        }
                    }
                    return Err(e);
                },
            };
            let base = shortest[i - 1].hops[h].1;
            // The candidate: the previous path's hops up to and including
            // `h`, then the fresh suffix with its costs offset by the cost
            // accumulated at `h`. The junction hop is shared.
            let mut chops: Vec<(String, u64)> = Vec::new();
            let mut x: usize = 0;
            while x <= h
                invariant
                    h < prevlen,
                    1 <= i <= shortest@.len(),
                    prevlen == shortest@[i - 1].hops@.len(),
                    x <= h + 1,
                    chops@.len() == x,
                    forall|y: int| 0 <= y < x ==> chops@[y] == shortest@[i - 1].hops@[y],
                decreases h + 1 - x,
            {
                let hop_id = shortest[i - 1].hops[x].0.clone();
                let hop_cost = shortest[i - 1].hops[x].1;
                chops.push((hop_id, hop_cost));
                x = x + 1;
            }
            let sufflen = suffix.hops.len();
            let mut y: usize = 1;
            while y < sufflen
                invariant
                    sufflen == suffix.hops@.len(),
                    1 <= y <= sufflen || y == 1,
                    h < prevlen,
                    1 <= i <= shortest@.len(),
                    prevlen == shortest@[i - 1].hops@.len(),
                    chops@.len() == h + y,
                    forall|z: int| 0 <= z <= h ==> chops@[z] == shortest@[i - 1].hops@[z],
                    forall|z: int|
                        0 < z < y ==> (#[trigger] chops@[h + z]) == (
                            suffix.hops@[z].0,
                            sat_add_spec(base, suffix.hops@[z].1),
                        ),
                decreases sufflen - y,
            {
                let hop_id = suffix.hops[y].0.clone();
                let hop_cost = sat_add(base, suffix.hops[y].1);
                chops.push((hop_id, hop_cost));
                y = y + 1;
            }
            let cand = Path { hops: chops };
            proof {
                let prev = shortest@[i - 1];
                assert(cand.hops@.len() == h + sufflen);
                assert(cand.hops@[0] == prev.hops@[0]);
                assert(base == prev.hops@[h as int].1);
                assert(suffix.hops@[0].1 == 0);
                assert forall|z: int| 0 <= z < cand.hops@.len() - 1 implies #[trigger] path_step(
                    *graph,
                    cand,
                    z,
                ) by {
                    if z < h {
                        assert(path_step(*graph, prev, z));
                        assert(cand.hops@[z] == prev.hops@[z]);
                        assert(cand.hops@[z + 1] == prev.hops@[z + 1]);
                    } else {
                        // This step mirrors step `z - h` of the suffix,
                        // with costs offset by `base`.
                        let w = z - h;
                        assert(path_step(*graph, suffix, w));
                        if z == h {
                            assert(cand.hops@[z] == prev.hops@[h as int]);
                            assert(suffix.hops@[0].0@ == prev.hops@[h as int].0@);
                            assert(sat_add_spec(base, 0) == base);
                        } else {
                            assert(cand.hops@[h + w] == (
                                suffix.hops@[w].0,
                                sat_add_spec(base, suffix.hops@[w].1),
                            ));
                            assert(z == h + w);
                        }
                        assert(cand.hops@[h + (w + 1)] == (
                            suffix.hops@[w + 1].0,
                            sat_add_spec(base, suffix.hops@[w + 1].1),
                        ));
                        assert(z + 1 == h + (w + 1));
                        assert(cand.hops@[z].0@ == suffix.hops@[w].0@);
                        assert(cand.hops@[z].1 == sat_add_spec(base, suffix.hops@[w].1));
                        assert(cand.hops@[z + 1].0@ == suffix.hops@[w + 1].0@);
                        assert(cand.hops@[z + 1].1 == sat_add_spec(base, suffix.hops@[w + 1].1));
                        let e = choose|e: int|
                            #![trigger graph.edges@[e]]
                            0 <= e < graph.edges@.len() && {
                                let le = graph.edges@[e];
                                &&& le.left < graph.nodes@.len()
                                &&& le.right < graph.nodes@.len()
                                &&& ((graph.nodes@[le.left as int].id@ == suffix.hops@[w].0@
                                    && graph.nodes@[le.right as int].id@ == suffix.hops@[w + 1].0@)
                                    || (graph.nodes@[le.right as int].id@ == suffix.hops@[w].0@
                                    && graph.nodes@[le.left as int].id@ == suffix.hops@[w
                                    + 1].0@))
                                &&& suffix.hops@[w + 1].1 == sat_add_spec(
                                    suffix.hops@[w].1,
                                    graph.edges@[e].cost,
                                )
                            };
                        lemma_sat_add_assoc(base, suffix.hops@[w].1, graph.edges@[e].cost);
                    }
                }
                assert(path_ok(*graph, cand));
                assert(cand.hops@[0].0@ == src@);
                if sufflen == 1 {
                    assert(cand.hops@[cand.hops@.len() - 1].0@ == dst@);
                } else {
                    assert(cand.hops@[h + (sufflen - 1)] == (
                        suffix.hops@[sufflen - 1].0,
                        sat_add_spec(base, suffix.hops@[sufflen - 1].1),
                    ));
                    assert(cand.hops@.len() - 1 == h + (sufflen - 1));
                    assert(cand.hops@[cand.hops@.len() - 1].0@ == suffix.hops@[sufflen - 1].0@);
                }
            }
            // Deduplicating insertion: paths visiting the same node
            // sequence collapse, whatever their recorded costs.
            let clen = candidates.len();
            let mut seen = false;
            let mut c: usize = 0;
            while c < clen
                invariant
                    clen == candidates@.len(),
                    c <= clen,
                decreases clen - c,
            {
                if candidates[c].eq(&cand) {
                    seen = true;
                }
                c = c + 1;
            }
            if !seen {
                candidates.push(cand);
            }
            h = h + 1;
        }
        // Remove the cheapest candidate and record it as the next path.
        if candidates.len() == 0 {
            break ;
        }
        let clen = candidates.len();
        let mut bestidx: usize = 0;
        let mut best_cost = candidates[0].cost();
        let mut c: usize = 1;
        while c < clen
            invariant
                clen == candidates@.len(),
                clen >= 1,
                c <= clen,
                bestidx < clen,
                best_cost == candidates@[bestidx as int].spec_cost(),
            decreases clen - c,
        {
            if candidates[c].cost() < best_cost {
                bestidx = c;
                best_cost = candidates[c].cost();
            }
            c = c + 1;
        }
        if best_cost == INFINITY {
            // Even the cheapest candidate's saturating cost has reached the
            // sentinel, so it no longer names a real cost: stop expanding
            // rather than return it.
            break ;
        }
        let best = candidates.remove(bestidx);
        shortest.push(best);
        i = i + 1;
    }
    Ok(shortest)
}

impl<S: Routing> MultiRouting for Yen<S> {
    fn k_shortest(graph: &Graph, src: &str, dst: &str, k: usize) -> (r: Result<
        Vec<Path>,
        SearchError,
    >) {
        let mut engine = StatelessRouting::<S> { _sssp: PhantomData };
        yen_k_shortest(&mut engine, graph, src, dst, k)
    }
}

/// The Dijkstra SSSP computation, exposed as the free function the
/// Yen-style strategy builds on.
pub fn sssp(graph: &Graph, src: &str, dst: &str) -> (r: Result<Path, SearchError>)
    requires
        graph.wf(),
    ensures
        routing_ok(*graph, r, src@, dst@),
{
    <crate::sssp::dijkstra::DijkstraSSSP as Routing>::shortest(graph, src, dst)
}

/// The same Yen-style strategy under its longer historical name.
#[derive(Debug)]
pub struct YenKSP<S> {
    /// The SSSP engine used.
    _sssp: PhantomData<S>,
}

impl<S: Routing> YenKSP<S> {
    /// Finds at most `k` cheapest paths from `src` to `dst`. Whenever at
    /// least one path is asked for, at least one comes back on success, and
    /// the first returned path is a cheapest one: no walk between the
    /// endpoints costs less, and some walk costs exactly as much.
    pub fn k_shortest_paths(graph: &Graph, src: &str, dst: &str, k: usize) -> (r: Result<
        Vec<Path>,
        SearchError,
    >)
        requires
            graph.wf(),
        ensures
            ksp_ok(*graph, r, src@, dst@, k as int),
            match r {
                Ok(paths) => k >= 1 ==> paths@.len() >= 1 && forall|w: Seq<(int, int)>|
                    #[trigger] walk_from_to(
                        *graph,
                        w,
                        node_index(*graph, src@),
                        node_index(*graph, dst@),
                    ) ==> paths@[0].spec_cost() <= walk_cost(w),
                Err(_) => true,
            },
            match r {
                Ok(paths) => k >= 1 ==> exists|w: Seq<(int, int)>|
                    #[trigger] walk_from_to(
                        *graph,
                        w,
                        node_index(*graph, src@),
                        node_index(*graph, dst@),
                    ) && walk_cost(w) == paths@[0].spec_cost(),
                Err(_) => true,
            },
    {
        let mut engine = StatelessRouting::<S> { _sssp: PhantomData };
        yen_k_shortest(&mut engine, graph, src, dst, k)
    }
}

} // verus!
