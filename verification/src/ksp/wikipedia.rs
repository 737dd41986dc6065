//! The count-per-node KSP enumeration strategy.

use vstd::prelude::*;

verus! {

use vstd::pervasive::VecAdditionalExecFns;
use crate::graph::{
    Graph,
    SearchError,
    edge_connects,
    istep,
    ipath_ok,
    lemma_node_index,
    node_index,
    walk_from_to,
    walk_cost,
    walk_linked,
    walk_step,
    lemma_walk_monotone,
};
use crate::path::{Path, path_ok, from_positions};
use crate::ksp::{MultiRouting, ksp_ok};
use crate::{INFINITY, sat_add, sat_add_spec};

/// The cumulative cost at the end of a non-empty hop list.
spec fn icost(w: Seq<(usize, u64)>) -> u64 {
    w[w.len() - 1].1
}

fn icost_exec(t: &Vec<(usize, u64)>) -> (r: u64)
    requires
        t@.len() >= 1,
    ensures
        r == icost(t@),
{
    t[t.len() - 1].1
}

fn clone_ipath(v: &Vec<(usize, u64)>) -> (r: Vec<(usize, u64)>)
    ensures
        r@ == v@,
{
    let mut r: Vec<(usize, u64)> = Vec::new();
    let n = v.len();
    let mut i: usize = 0;
    while i < n
        invariant
            n == v@.len(),
            i <= n,
            r@.len() == i,
            forall|j: int| 0 <= j < i ==> r@[j] == v@[j],
        decreases n - i,
    {
        r.push(v[i]);
        i = i + 1;
    }
    proof {
        assert(r@ =~= v@);
    }
    r
}

/// The end node and cumulative cost of each queued candidate.
spec fn queue_ends(todo: Seq<Vec<(usize, u64)>>) -> Seq<(int, int)> {
    todo.map_values(
        |t: Vec<(usize, u64)>| (t@[t@.len() - 1].0 as int, t@[t@.len() - 1].1 as int),
    )
}

/// Candidate bookkeeping that survives removals: every neighbour of a node
/// whose candidate was removed has been offered a candidate at most one
/// edge dearer, and that offer is either still queued or was itself
/// removed.
spec fn queue_closed(g: Graph, qends: Seq<(int, int)>, popped: Seq<(int, int)>) -> bool {
    forall|pi: int, e: int|
        0 <= pi < popped.len() && 0 <= e < g.edges@.len() ==> {
            let ed = #[trigger] g.edges@[e];
            let p = #[trigger] popped[pi];
            &&& (ed.left == p.0 ==> offered(qends, popped, ed.right as int, p.1 + ed.cost))
            &&& (ed.right == p.0 ==> offered(qends, popped, ed.left as int, p.1 + ed.cost))
        }
}

/// Some queued entry ends at `node` with a cost within `bound`.
spec fn qoffered(qends: Seq<(int, int)>, node: int, bound: int) -> bool {
    exists|x: (int, int)| #[trigger] qends.contains(x) && x.0 == node && x.1 <= bound
}

/// Some entry, queued or removed, ends at `node` with a cost within
/// `bound`.
spec fn offered(qends: Seq<(int, int)>, popped: Seq<(int, int)>, node: int, bound: int) -> bool {
    exists|x: (int, int)|
        #![trigger qends.contains(x)]
        #![trigger popped.contains(x)]
        (qends.contains(x) || popped.contains(x)) && x.0 == node && x.1 <= bound
}

/// While no path to the destination has been removed from the queue, the
/// queue holds, for every walk from the source to the destination, an
/// entry at least as cheap as the walk: walking the closure records along
/// the walk either meets a queued entry (which the current minimum
/// undercuts) or would have to meet a removed destination entry.
proof fn lemma_queue_bound(
    g: Graph,
    qends: Seq<(int, int)>,
    popped: Seq<(int, int)>,
    w: Seq<(int, int)>,
    dsti: int,
    cstar: int,
    j: int,
)
    requires
        g.wf(),
        walk_linked(g, w),
        0 <= j < w.len(),
        w[0].1 == 0,
        w[w.len() - 1].0 == dsti,
        offered(qends, popped, w[0].0, 0),
        queue_closed(g, qends, popped),
        forall|pi: int| 0 <= pi < popped.len() ==> (#[trigger] popped[pi]).0 != dsti,
        forall|x: (int, int)| #[trigger] qends.contains(x) ==> cstar <= x.1,
    ensures
        cstar <= w[w.len() - 1].1 || exists|pi: int|
            0 <= pi < popped.len() && (#[trigger] popped[pi]).0 == w[j].0 && popped[pi].1 <= w[
                j].1,
    decreases j,
{
    let last = w.len() - 1;
    if j == 0 {
        let x = choose|x: (int, int)|
            (qends.contains(x) || popped.contains(x)) && x.0 == w[0].0 && x.1 <= 0;
        if qends.contains(x) {
            lemma_walk_monotone(g, w, 0, last);
            assert(cstar <= x.1 <= w[0].1 <= w[last].1);
        } else {
            let pi = choose|pi: int| 0 <= pi < popped.len() && popped[pi] == x;
            assert(popped[pi].0 == w[0].0 && popped[pi].1 <= w[0].1);
        }
    } else {
        lemma_queue_bound(g, qends, popped, w, dsti, cstar, j - 1);
        if !(cstar <= w[last].1) {
            let pi = choose|pi: int|
                0 <= pi < popped.len() && (#[trigger] popped[pi]).0 == w[j - 1].0 && popped[pi].1
                    <= w[j - 1].1;
            assert(walk_step(g, w, j - 1));
            let e = choose|e: int|
                #[trigger] edge_connects(g, e, w[j - 1].0, w[j].0) && w[j].1 == w[j - 1].1
                    + g.edges@[e].cost;
            let ed = g.edges@[e];
            assert(offered(qends, popped, w[j].0, popped[pi].1 + ed.cost));
            let x = choose|x: (int, int)|
                #![trigger qends.contains(x)]
                #![trigger popped.contains(x)]
                (qends.contains(x) || popped.contains(x)) && x.0 == w[j].0 && x.1 <= popped[pi].1
                    + ed.cost;
            if qends.contains(x) {
                lemma_walk_monotone(g, w, j, last);
                assert(cstar <= x.1 <= w[j].1 <= w[last].1);
            } else {
                let pi2 = choose|pi2: int| 0 <= pi2 < popped.len() && popped[pi2] == x;
                assert(popped[pi2].0 == w[j].0 && popped[pi2].1 <= w[j].1);
            }
        }
    }
}

proof fn lemma_qends_insert(todo: Seq<Vec<(usize, u64)>>, ipos: int, np: Vec<(usize, u64)>)
    requires
        0 <= ipos <= todo.len(),
        np@.len() >= 1,
    ensures
        forall|x: (int, int)|
            queue_ends(todo).contains(x) ==> #[trigger] queue_ends(todo.insert(ipos, np)).contains(
                x,
            ),
        forall|x: (int, int)|
            #[trigger] queue_ends(todo.insert(ipos, np)).contains(x) ==> queue_ends(
                todo,
            ).contains(x) || x == (np@[np@.len() - 1].0 as int, np@[np@.len() - 1].1 as int),
        queue_ends(todo.insert(ipos, np)).contains(
            (np@[np@.len() - 1].0 as int, np@[np@.len() - 1].1 as int),
        ),
{
    let qe1 = queue_ends(todo);
    let qe2 = queue_ends(todo.insert(ipos, np));
    let npend = (np@[np@.len() - 1].0 as int, np@[np@.len() - 1].1 as int);
    assert(qe2[ipos] == npend);
    assert(qe2.contains(npend));
    assert forall|x: (int, int)| qe1.contains(x) implies #[trigger] qe2.contains(x) by {
        let t = choose|t: int| 0 <= t < qe1.len() && qe1[t] == x;
        if t < ipos {
            assert(qe2[t] == x);
        } else {
            assert(qe2[t + 1] == x);
        }
    }
    assert forall|x: (int, int)| #[trigger] qe2.contains(x) implies qe1.contains(x) || x
        == npend by {
        let t = choose|t: int| 0 <= t < qe2.len() && qe2[t] == x;
        if t < ipos {
            assert(qe1[t] == x);
        } else if t > ipos {
            assert(qe1[t - 1] == x);
        }
    }
}

proof fn lemma_qends_pop(todo: Seq<Vec<(usize, u64)>>)
    requires
        todo.len() >= 1,
        todo[todo.len() - 1]@.len() >= 1,
    ensures
        forall|x: (int, int)|
            #[trigger] queue_ends(todo).contains(x) ==> queue_ends(todo.drop_last()).contains(x)
                || x == queue_ends(todo)[todo.len() - 1],
        forall|x: (int, int)|
            #[trigger] queue_ends(todo.drop_last()).contains(x) ==> queue_ends(todo).contains(x),
{
    let qe1 = queue_ends(todo);
    let qe2 = queue_ends(todo.drop_last());
    assert forall|x: (int, int)| #[trigger] qe1.contains(x) implies qe2.contains(x) || x == qe1[
        todo.len() - 1] by {
        let t = choose|t: int| 0 <= t < qe1.len() && qe1[t] == x;
        if t < todo.len() - 1 {
            assert(qe2[t] == x);
        }
    }
    assert forall|x: (int, int)| #[trigger] qe2.contains(x) implies qe1.contains(x) by {
        let t = choose|t: int| 0 <= t < qe2.len() && qe2[t] == x;
        assert(qe1[t] == x);
    }
}

/// An offer survives moving entries from the queue to the removed record,
/// and its bound may grow.
proof fn lemma_offered_transfer(
    qe1: Seq<(int, int)>,
    pop1: Seq<(int, int)>,
    qe2: Seq<(int, int)>,
    pop2: Seq<(int, int)>,
    node: int,
    b1: int,
    b2: int,
)
    requires
        offered(qe1, pop1, node, b1),
        b1 <= b2,
        forall|x: (int, int)| #[trigger] qe1.contains(x) ==> qe2.contains(x) || pop2.contains(x),
        forall|x: (int, int)| #[trigger] pop1.contains(x) ==> pop2.contains(x),
    ensures
        offered(qe2, pop2, node, b2),
{
    let x = choose|x: (int, int)|
        #![trigger qe1.contains(x)]
        #![trigger pop1.contains(x)]
        (qe1.contains(x) || pop1.contains(x)) && x.0 == node && x.1 <= b1;
    if qe1.contains(x) {
        assert(qe2.contains(x) || pop2.contains(x));
    } else {
        assert(pop2.contains(x));
    }
}

/// Cumulative costs never decrease along a well-formed hop list.
proof fn lemma_ipath_monotone(g: Graph, w: Seq<(usize, u64)>, a: int, b: int)
    requires
        forall|x: int| 0 <= x < w.len() - 1 ==> #[trigger] istep(g, w, x),
        0 <= a <= b < w.len(),
    ensures
        w[a].1 <= w[b].1,
    decreases b - a,
{
    if a < b {
        lemma_ipath_monotone(g, w, a, b - 1);
        assert(istep(g, w, b - 1));
        let e = choose|e: int|
            #[trigger] edge_connects(g, e, w[b - 1].0 as int, w[b].0 as int) && w[b].1
                == sat_add_spec(w[b - 1].1, g.edges@[e].cost);
    }
}

/// A candidate: a well-formed hop list that starts at the source with cost
/// zero.
spec fn cand_ok(g: Graph, t: Seq<(usize, u64)>, srci: int) -> bool {
    &&& ipath_ok(g, t)
    &&& t[0].0 == srci
    &&& t[0].1 == 0
}

/// How much expansion budget is left: each node may be expanded until its
/// counter passes `k`.
spec fn cap_sum(counts: Seq<usize>, k: int) -> int
    decreases counts.len(),
{
    if counts.len() == 0 {
        0
    } else {
        cap_sum(counts.drop_last(), k) + (k + 1 - counts.last())
    }
}

proof fn lemma_cap_sum_nonneg(s: Seq<usize>, k: int)
    requires
        forall|i: int| 0 <= i < s.len() ==> #[trigger] s[i] <= k + 1,
    ensures
        cap_sum(s, k) >= 0,
    decreases s.len(),
{
    if s.len() > 0 {
        lemma_cap_sum_nonneg(s.drop_last(), k);
    }
}

proof fn lemma_cap_sum_update(s: Seq<usize>, i: int, v: usize, k: int)
    requires
        0 <= i < s.len(),
    ensures
        cap_sum(s.update(i, v), k) == cap_sum(s, k) + s[i] - v,
    decreases s.len(),
{
    let t = s.update(i, v);
    if i == s.len() - 1 {
        assert(t.drop_last() =~= s.drop_last());
    } else {
        assert(t.drop_last() =~= s.drop_last().update(i, v));
        lemma_cap_sum_update(s.drop_last(), i, v, k);
        assert(t.last() == s.last());
    }
}

/// The simplest KSP strategy: breadth-style enumeration of walks.
///
/// A cost-ordered candidate list starts with the trivial path at the
/// source. Repeatedly the cheapest candidate is removed; a per-node counter
/// records how many removed candidates ended at each node, and a candidate
/// ending at the destination joins the result. As long as a node's counter
/// has not passed `k`, the removed candidate is extended along every edge
/// incident to its end, in both directions. No cycle check is made: the
/// enumeration ranges over walks, not strictly simple paths, and only the
/// per-node counter cap keeps it finite.
#[derive(Clone, Copy, Debug)]
pub struct WikipediaKSP;

impl WikipediaKSP {
    /// Finds at most `k` cheapest walks from `src` to `dst`, ordered by
    /// non-decreasing cost. The first returned walk is cost-minimal among
    /// all walks between the endpoints, and whenever any walk joins them at
    /// least one is returned.
    pub fn k_shortest_paths(&self, graph: &Graph, src: &str, dst: &str, k: usize) -> (r: Result<
        Vec<Path>,
        SearchError,
    >)
        requires
            graph.wf(),
            k < usize::MAX,
        ensures
            ksp_ok(*graph, r, src@, dst@, k as int),
            r is Err ==> !graph.has_node(src@) || !graph.has_node(dst@),
            match r {
                Ok(paths) => forall|a: int, b: int|
                    0 <= a <= b < paths@.len() ==> (#[trigger] paths@[a]).spec_cost() <= (
                    #[trigger] paths@[b]).spec_cost(),
                Err(_) => true,
            },
            match r {
                Ok(paths) => paths@.len() >= 1 ==> forall|w: Seq<(int, int)>|
                    #[trigger] walk_from_to(
                        *graph,
                        w,
                        node_index(*graph, src@),
                        node_index(*graph, dst@),
                    ) ==> paths@[0].spec_cost() <= walk_cost(w),
                Err(_) => true,
            },
            match r {
                Ok(paths) => paths@.len() >= 1 && paths@[0].spec_cost() < INFINITY
                    ==> exists|w: Seq<(int, int)>|
                    #[trigger] walk_from_to(
                        *graph,
                        w,
                        node_index(*graph, src@),
                        node_index(*graph, dst@),
                    ) && walk_cost(w) == paths@[0].spec_cost(),
                Err(_) => true,
            },
            match r {
                Ok(paths) => (k >= 1 && exists|w: Seq<(int, int)>|
                    #[trigger] walk_from_to(
                        *graph,
                        w,
                        node_index(*graph, src@),
                        node_index(*graph, dst@),
                    )) ==> paths@.len() >= 1,
                Err(_) => true,
            },
    {
        let srci = match graph.find_node(src) {
            Some(i) => i,
            None => {
                return Err(SearchError::UnknownNode);
            },
        };
        let dsti = match graph.find_node(dst) {
            Some(i) => i,
            None => {
                return Err(SearchError::UnknownNode);
            },
        };
        proof {
            assert(graph.has_node(src@));
            assert(graph.has_node(dst@));
            lemma_node_index(*graph, src@);
            lemma_node_index(*graph, dst@);
        }
        let n = graph.nodes.len();
        let mut shortest: Vec<Path> = Vec::new();
        let mut counts: Vec<usize> = vec![0; n];
        let mut todo: Vec<Vec<(usize, u64)>> = Vec::new();
        let mut start: Vec<(usize, u64)> = Vec::new();
        start.push((srci, 0));
        todo.push(start);
        let ghost mut popped: Seq<(int, int)> = Seq::empty();
        proof {
            assert(queue_ends(todo@)[0] == (srci as int, 0int));
            assert(queue_ends(todo@).contains((srci as int, 0int)));
        }
        while todo.len() > 0 && counts[dsti] < k
            invariant
                graph.wf(),
                n == graph.nodes@.len(),
                srci < n,
                dsti < n,
                graph.nodes@[srci as int].id@ == src@,
                graph.nodes@[dsti as int].id@ == dst@,
                graph.has_node(src@),
                graph.has_node(dst@),
                k < usize::MAX,
                counts@.len() == n,
                forall|u: int| 0 <= u < n ==> #[trigger] counts@[u] <= k + 1,
                counts@[dsti as int] <= k,
                shortest@.len() == counts@[dsti as int],
                forall|t: int|
                    0 <= t < todo@.len() ==> cand_ok(*graph, (#[trigger] todo@[t])@, srci as int),
                forall|a: int, b: int|
                    0 <= a <= b < todo@.len() ==> icost((#[trigger] todo@[a])@) >= icost((
                    #[trigger] todo@[b])@),
                forall|i: int|
                    0 <= i < shortest@.len() ==> {
                        let p = #[trigger] shortest@[i];
                        &&& path_ok(*graph, p)
                        &&& p.hops@[0].0@ == src@
                        &&& p.hops@[p.hops@.len() - 1].0@ == dst@
                    },
                forall|a: int, b: int|
                    0 <= a <= b < shortest@.len() ==> (#[trigger] shortest@[a]).spec_cost() <= (
                    #[trigger] shortest@[b]).spec_cost(),
                forall|i: int, t: int|
                    0 <= i < shortest@.len() && 0 <= t < todo@.len() ==> (
                    #[trigger] shortest@[i]).spec_cost() <= icost((#[trigger] todo@[t])@),
                node_index(*graph, src@) == srci as int,
                node_index(*graph, dst@) == dsti as int,
                shortest@.len() == 0 ==> offered(queue_ends(todo@), popped, srci as int, 0),
                shortest@.len() == 0 ==> queue_closed(*graph, queue_ends(todo@), popped),
                shortest@.len() == 0 ==> forall|pi: int|
                    0 <= pi < popped.len() ==> (#[trigger] popped[pi]).0 != dsti,
                shortest@.len() == 0 ==> forall|pi: int, x: (int, int)|
                    0 <= pi < popped.len() && #[trigger] queue_ends(todo@).contains(x) ==> (
                    #[trigger] popped[pi]).1 <= x.1,
                shortest@.len() == 0 ==> forall|u: int|
                    0 <= u < n && #[trigger] counts@[u] >= 1 ==> exists|pi: int|
                        0 <= pi < popped.len() && (#[trigger] popped[pi]).0 == u,
                shortest@.len() >= 1 ==> forall|w: Seq<(int, int)>|
                    #[trigger] walk_from_to(*graph, w, srci as int, dsti as int) ==> shortest@[
                        0].spec_cost() <= walk_cost(w),
                shortest@.len() >= 1 && shortest@[0].spec_cost() < INFINITY ==> exists|
                    w: Seq<(int, int)>,
                |
                    #[trigger] walk_from_to(*graph, w, srci as int, dsti as int) && walk_cost(w)
                        == shortest@[0].spec_cost(),
            decreases cap_sum(counts@, k as int), todo@.len(),
        {
            proof {
                lemma_cap_sum_nonneg(counts@, k as int);
            }
            let ghost oldcounts = counts@;
            let ghost oldtodo = todo@;
            // Remove the cheapest candidate: the tail of the
            // descending-ordered list.
            let pop = todo.pop().unwrap();
            proof {
                assert(cand_ok(*graph, (oldtodo[oldtodo.len() - 1])@, srci as int));
            }
            let endpos = pop[pop.len() - 1].0;
            let popcost = pop[pop.len() - 1].1;
            let ghost oldqe = queue_ends(oldtodo);
            proof {
                assert(oldqe[oldtodo.len() - 1] == (endpos as int, popcost as int));
                lemma_qends_pop(oldtodo);
                // The removed candidate was the cheapest queued one.
                assert forall|x: (int, int)| #[trigger] oldqe.contains(x) implies popcost as int
                    <= x.1 by {
                    let t = choose|t: int| 0 <= t < oldqe.len() && oldqe[t] == x;
                    assert(icost(oldtodo[t]@) >= icost(oldtodo[oldtodo.len() - 1]@));
                    assert(x == (oldtodo[t]@[oldtodo[t]@.len() - 1].0 as int, icost(
                        oldtodo[t]@,
                    ) as int));
                }
                if shortest@.len() == 0 && endpos == dsti {
                    // The first candidate that reaches the destination
                    // undercuts every walk between the endpoints.
                    assert forall|w: Seq<(int, int)>| #[trigger] walk_from_to(
                        *graph,
                        w,
                        srci as int,
                        dsti as int,
                    ) implies popcost as int <= walk_cost(w) by {
                        lemma_queue_bound(
                            *graph,
                            oldqe,
                            popped,
                            w,
                            dsti as int,
                            popcost as int,
                            w.len() - 1,
                        );
                        if !(popcost as int <= w[w.len() - 1].1) {
                            let pi = choose|pi: int|
                                0 <= pi < popped.len() && (#[trigger] popped[pi]).0 == w[w.len()
                                    - 1].0 && popped[pi].1 <= w[w.len() - 1].1;
                            assert(false);
                        }
                    }
                }
            }
            let cend = counts[endpos];
            if cend <= k {
                counts.set(endpos, cend + 1);
                proof {
                    lemma_cap_sum_update(oldcounts, endpos as int, (cend + 1) as usize, k as int);
                }
            }
            if endpos == dsti {
                let p = from_positions(graph, &pop);
                proof {
                    assert(p.spec_cost() == popcost);
                    assert forall|i: int| 0 <= i < shortest@.len() implies (
                    #[trigger] shortest@[i]).spec_cost() <= popcost by {
                        assert(shortest@[i].spec_cost() <= icost((oldtodo[oldtodo.len() - 1])@));
                    }
                }
                let ghost oldshortest = shortest@;
                shortest.push(p);
                proof {
                    if oldshortest.len() == 0 {
                        assert forall|w: Seq<(int, int)>| #[trigger] walk_from_to(
                            *graph,
                            w,
                            srci as int,
                            dsti as int,
                        ) implies shortest@[0].spec_cost() <= walk_cost(w) by {
                            assert(popcost as int <= walk_cost(w));
                        }
                        if popcost < INFINITY {
                            // The found candidate itself is a walk of that
                            // cost: below the sentinel, the saturating
                            // cumulative sums are exact.
                            let iw = pop@.map_values(
                                |h: (usize, u64)| (h.0 as int, h.1 as int),
                            );
                            assert forall|x: int| 0 <= x < iw.len() - 1 implies #[trigger] walk_step(
                                *graph,
                                iw,
                                x,
                            ) by {
                                assert(istep(*graph, pop@, x));
                                let e = choose|e: int|
                                    #[trigger] edge_connects(
                                        *graph,
                                        e,
                                        pop@[x].0 as int,
                                        pop@[x + 1].0 as int,
                                    ) && pop@[x + 1].1 == sat_add_spec(
                                        pop@[x].1,
                                        graph.edges@[e].cost,
                                    );
                                lemma_ipath_monotone(
                                    *graph,
                                    pop@,
                                    x + 1,
                                    pop@.len() - 1,
                                );
                                assert(pop@[x + 1].1 < INFINITY);
                                assert(iw[x + 1].1 == iw[x].1 + graph.edges@[e].cost);
                                assert(edge_connects(*graph, e, iw[x].0, iw[x + 1].0));
                            }
                            assert(walk_from_to(*graph, iw, srci as int, dsti as int)
                                && walk_cost(iw) == popcost as int);
                        }
                    } else {
                        assert(shortest@[0] == oldshortest[0]);
                    }
                }
            }
            let ghost pretodo0 = todo@;
            if counts[endpos] <= k {
                // Extend the removed candidate along every edge incident to
                // its end, inserting each extension at the position that
                // keeps the candidate list ordered by descending cost.
                let ecount = graph.edges.len();
                let mut j: usize = 0;
                while j < ecount
                    invariant
                        graph.wf(),
                        n == graph.nodes@.len(),
                        ecount == graph.edges@.len(),
                        j <= ecount,
                        srci < n,
                        dsti < n,
                        k < usize::MAX,
                        counts@.len() == n,
                        forall|u: int| 0 <= u < n ==> #[trigger] counts@[u] <= k + 1,
                        counts@[dsti as int] <= k,
                        shortest@.len() == counts@[dsti as int],
                        cand_ok(*graph, pop@, srci as int),
                        endpos == pop@[pop@.len() - 1].0,
                        popcost == icost(pop@),
                        forall|t: int|
                            0 <= t < todo@.len() ==> cand_ok(
                                *graph,
                                (#[trigger] todo@[t])@,
                                srci as int,
                            ),
                        forall|a: int, b: int|
                            0 <= a <= b < todo@.len() ==> icost((#[trigger] todo@[a])@) >= icost((
                            #[trigger] todo@[b])@),
                        forall|i: int|
                            0 <= i < shortest@.len() ==> {
                                let p = #[trigger] shortest@[i];
                                &&& path_ok(*graph, p)
                                &&& p.hops@[0].0@ == src@
                                &&& p.hops@[p.hops@.len() - 1].0@ == dst@
                            },
                        forall|a: int, b: int|
                            0 <= a <= b < shortest@.len() ==> (
                            #[trigger] shortest@[a]).spec_cost() <= (
                            #[trigger] shortest@[b]).spec_cost(),
                        forall|i: int|
                            0 <= i < shortest@.len() ==> (#[trigger] shortest@[i]).spec_cost()
                                <= popcost,
                        forall|i: int, t: int|
                            0 <= i < shortest@.len() && 0 <= t < todo@.len() ==> (
                            #[trigger] shortest@[i]).spec_cost() <= icost((#[trigger] todo@[t])@),
                        forall|x: (int, int)|
                            #[trigger] queue_ends(pretodo0).contains(x) ==> queue_ends(
                                todo@,
                            ).contains(x),
                        forall|x: (int, int)|
                            #[trigger] queue_ends(todo@).contains(x) ==> queue_ends(
                                pretodo0,
                            ).contains(x) || x.1 >= popcost as int,
                        forall|e: int|
                            0 <= e < j ==> {
                                let ed = #[trigger] graph.edges@[e];
                                &&& (ed.left == endpos && ed.right != endpos ==> qoffered(
                                    queue_ends(todo@),
                                    ed.right as int,
                                    popcost as int + ed.cost,
                                ))
                                &&& (ed.right == endpos && ed.left != endpos ==> qoffered(
                                    queue_ends(todo@),
                                    ed.left as int,
                                    popcost as int + ed.cost,
                                ))
                            },
                    decreases ecount - j,
                {
                    let ed_left = graph.edges[j].left;
                    let ed_right = graph.edges[j].right;
                    let ed_cost = graph.edges[j].cost;
                    let neigh: usize = if ed_left == endpos && ed_right != endpos {
                        ed_right
                    } else if ed_left != endpos && ed_right == endpos {
                        ed_left
                    } else {
                        j = j + 1;
                        continue ;
                    };
                    let newcost = sat_add(popcost, ed_cost);
                    let mut np = clone_ipath(&pop);
                    np.push((neigh, newcost));
                    proof {
                        assert(edge_connects(*graph, j as int, endpos as int, neigh as int));
                        assert forall|x: int| 0 <= x < np@.len() - 1 implies #[trigger] istep(
                            *graph,
                            np@,
                            x,
                        ) by {
                            if x < np@.len() - 2 {
                                assert(istep(*graph, pop@, x));
                                let e = choose|e: int|
                                    #[trigger] edge_connects(
                                        *graph,
                                        e,
                                        pop@[x].0 as int,
                                        pop@[x + 1].0 as int,
                                    ) && pop@[x + 1].1 == sat_add_spec(
                                        pop@[x].1,
                                        graph.edges@[e].cost,
                                    );
                                assert(np@[x] == pop@[x] && np@[x + 1] == pop@[x + 1]);
                                assert(edge_connects(
                                    *graph,
                                    e,
                                    np@[x].0 as int,
                                    np@[x + 1].0 as int,
                                ));
                            } else {
                                assert(np@[x] == pop@[pop@.len() - 1]);
                                assert(np@[x + 1] == (neigh, newcost));
                                assert(edge_connects(
                                    *graph,
                                    j as int,
                                    np@[x].0 as int,
                                    np@[x + 1].0 as int,
                                ));
                                assert(np@[x + 1].1 == sat_add_spec(
                                    np@[x].1,
                                    graph.edges@[j as int].cost,
                                ));
                            }
                        }
                        assert(cand_ok(*graph, np@, srci as int));
                    }
                    // Find where the extension belongs: after every
                    // strictly costlier candidate.
                    let tlen = todo.len();
                    let mut ipos: usize = 0;
                    while ipos < tlen && icost_exec(&todo[ipos]) > newcost
                        invariant
                            tlen == todo@.len(),
                            ipos <= tlen,
                            forall|t: int|
                                0 <= t < todo@.len() ==> (#[trigger] todo@[t])@.len() >= 1,
                            forall|x: int| 0 <= x < ipos ==> icost((#[trigger] todo@[x])@) > newcost,
                        decreases tlen - ipos,
                    {
                        ipos = ipos + 1;
                    }
                    let ghost pretodo = todo@;
                    todo.insert(ipos, np);
                    proof {
                        assert(icost(np@) == newcost);
                        assert(newcost >= popcost);
                        assert forall|a: int, b: int| 0 <= a <= b < todo@.len() implies icost((
                        #[trigger] todo@[a])@) >= icost((#[trigger] todo@[b])@) by {
                            if a < ipos {
                                assert(todo@[a] == pretodo[a]);
                            }
                            if b < ipos {
                                assert(todo@[b] == pretodo[b]);
                            }
                            if a > ipos {
                                assert(todo@[a] == pretodo[a - 1]);
                            }
                            if b > ipos {
                                assert(todo@[b] == pretodo[b - 1]);
                            }
                            if a == ipos && b > ipos {
                                assert(icost(pretodo[ipos as int]@) <= newcost);
                                assert(icost(pretodo[b - 1]@) <= icost(pretodo[ipos as int]@));
                            }
                            if a < ipos && b == ipos {
                                assert(icost(pretodo[a]@) > newcost);
                            }
                        }
                        lemma_qends_insert(pretodo, ipos as int, np);
                        let npend = (neigh as int, newcost as int);
                        assert(queue_ends(todo@).contains(npend));
                        assert(npend.1 <= popcost as int + graph.edges@[j as int].cost);
                        assert forall|x: (int, int)|
                            #[trigger] queue_ends(pretodo0).contains(x) implies queue_ends(
                            todo@,
                        ).contains(x) by {
                            assert(queue_ends(pretodo).contains(x));
                        }
                        assert forall|x: (int, int)|
                            #[trigger] queue_ends(todo@).contains(x) implies queue_ends(
                            pretodo0,
                        ).contains(x) || x.1 >= popcost as int by {
                            if x != npend {
                                assert(queue_ends(pretodo).contains(x));
                            }
                        }
                        assert forall|e: int| 0 <= e < j + 1 implies {
                            let ed = #[trigger] graph.edges@[e];
                            &&& (ed.left == endpos && ed.right != endpos ==> qoffered(
                                queue_ends(todo@),
                                ed.right as int,
                                popcost as int + ed.cost,
                            ))
                            &&& (ed.right == endpos && ed.left != endpos ==> qoffered(
                                queue_ends(todo@),
                                ed.left as int,
                                popcost as int + ed.cost,
                            ))
                        } by {
                            let ed = graph.edges@[e];
                            if e == j {
                                assert(qoffered(
                                    queue_ends(todo@),
                                    neigh as int,
                                    popcost as int + ed.cost,
                                ));
                            } else {
                                if ed.left == endpos && ed.right != endpos && qoffered(
                                    queue_ends(pretodo),
                                    ed.right as int,
                                    popcost as int + ed.cost,
                                ) {
                                    let x = choose|x: (int, int)|
                                        #[trigger] queue_ends(pretodo).contains(x) && x.0
                                            == ed.right as int && x.1 <= popcost as int + ed.cost;
                                    assert(queue_ends(todo@).contains(x));
                                }
                                if ed.right == endpos && ed.left != endpos && qoffered(
                                    queue_ends(pretodo),
                                    ed.left as int,
                                    popcost as int + ed.cost,
                                ) {
                                    let x = choose|x: (int, int)|
                                        #[trigger] queue_ends(pretodo).contains(x) && x.0
                                            == ed.left as int && x.1 <= popcost as int + ed.cost;
                                    assert(queue_ends(todo@).contains(x));
                                }
                            }
                        }
                    }
                    j = j + 1;
                }
            }
            let ghost qe_fin = queue_ends(todo@);
            proof {
                lemma_cap_sum_nonneg(counts@, k as int);
                if shortest@.len() == 0 {
                    // The bookkeeping for the first-path bound: record the
                    // removal and re-establish the closure records.
                    let newentry = (endpos as int, popcost as int);
                    let oldpopped = popped;
                    popped = popped.push(newentry);
                    assert(popped[popped.len() - 1] == newentry);
                    assert(popped.contains(newentry));
                    assert forall|x: (int, int)| #[trigger] oldpopped.contains(
                        x,
                    ) implies popped.contains(x) by {
                        let t = choose|t: int| 0 <= t < oldpopped.len() && oldpopped[t] == x;
                        assert(popped[t] == x);
                    }
                    assert(endpos != dsti);
                    assert forall|x: (int, int)| #[trigger] oldqe.contains(x) implies qe_fin.contains(
                        x,
                    ) || popped.contains(x) by {
                        if x != newentry {
                            assert(queue_ends(oldtodo.drop_last()).contains(x));
                            assert(queue_ends(pretodo0).contains(x));
                        }
                    }
                    assert forall|x: (int, int)| #[trigger] qe_fin.contains(x) implies oldqe.contains(
                        x,
                    ) || x.1 >= popcost as int by {
                        if queue_ends(pretodo0).contains(x) {
                            assert(queue_ends(oldtodo).contains(x));
                        }
                    }
                    // Seeding offer.
                    lemma_offered_transfer(
                        oldqe,
                        oldpopped,
                        qe_fin,
                        popped,
                        srci as int,
                        0,
                        0,
                    );
                    // Closure records.
                    assert(queue_closed(*graph, qe_fin, popped)) by {
                        assert forall|pi: int, e: int|
                            0 <= pi < popped.len() && 0 <= e < graph.edges@.len() implies {
                            let ed = #[trigger] graph.edges@[e];
                            let p = #[trigger] popped[pi];
                            &&& (ed.left == p.0 ==> offered(
                                qe_fin,
                                popped,
                                ed.right as int,
                                p.1 + ed.cost,
                            ))
                            &&& (ed.right == p.0 ==> offered(
                                qe_fin,
                                popped,
                                ed.left as int,
                                p.1 + ed.cost,
                            ))
                        } by {
                            let ed = graph.edges@[e];
                            let p = popped[pi];
                            if pi < oldpopped.len() {
                                assert(oldpopped[pi] == p);
                                if ed.left == p.0 {
                                    assert(offered(oldqe, oldpopped, ed.right as int, p.1
                                        + ed.cost));
                                    lemma_offered_transfer(
                                        oldqe,
                                        oldpopped,
                                        qe_fin,
                                        popped,
                                        ed.right as int,
                                        p.1 + ed.cost,
                                        p.1 + ed.cost,
                                    );
                                }
                                if ed.right == p.0 {
                                    assert(offered(oldqe, oldpopped, ed.left as int, p.1
                                        + ed.cost));
                                    lemma_offered_transfer(
                                        oldqe,
                                        oldpopped,
                                        qe_fin,
                                        popped,
                                        ed.left as int,
                                        p.1 + ed.cost,
                                        p.1 + ed.cost,
                                    );
                                }
                            } else {
                                assert(p == newentry);
                                if counts@[endpos as int] <= k {
                                    // Expanded: every extension was queued.
                                    if ed.left == p.0 && ed.right != endpos {
                                        let x = choose|x: (int, int)|
                                            #[trigger] qe_fin.contains(x) && x.0 == ed.right as int
                                                && x.1 <= popcost as int + ed.cost;
                                        assert(offered(qe_fin, popped, ed.right as int, p.1
                                            + ed.cost));
                                    }
                                    if ed.right == p.0 && ed.left != endpos {
                                        let x = choose|x: (int, int)|
                                            #[trigger] qe_fin.contains(x) && x.0 == ed.left as int
                                                && x.1 <= popcost as int + ed.cost;
                                        assert(offered(qe_fin, popped, ed.left as int, p.1
                                            + ed.cost));
                                    }
                                    if ed.left == p.0 && ed.right == endpos {
                                        assert(offered(qe_fin, popped, ed.right as int, p.1
                                            + ed.cost));
                                    }
                                    if ed.right == p.0 && ed.left == endpos {
                                        assert(offered(qe_fin, popped, ed.left as int, p.1
                                            + ed.cost));
                                    }
                                } else {
                                    // Blocked: an earlier removal of the same
                                    // node already spread cheaper offers.
                                    assert(oldcounts[endpos as int] >= 1);
                                    let pi0 = choose|pi0: int|
                                        0 <= pi0 < oldpopped.len() && (#[trigger] oldpopped[
                                        pi0]).0 == endpos as int;
                                    assert(oldqe.contains(newentry));
                                    assert(oldpopped[pi0].1 <= popcost as int);
                                    if ed.left == p.0 {
                                        assert(offered(
                                            oldqe,
                                            oldpopped,
                                            ed.right as int,
                                            oldpopped[pi0].1 + ed.cost,
                                        ));
                                        lemma_offered_transfer(
                                            oldqe,
                                            oldpopped,
                                            qe_fin,
                                            popped,
                                            ed.right as int,
                                            oldpopped[pi0].1 + ed.cost,
                                            p.1 + ed.cost,
                                        );
                                    }
                                    if ed.right == p.0 {
                                        assert(offered(
                                            oldqe,
                                            oldpopped,
                                            ed.left as int,
                                            oldpopped[pi0].1 + ed.cost,
                                        ));
                                        lemma_offered_transfer(
                                            oldqe,
                                            oldpopped,
                                            qe_fin,
                                            popped,
                                            ed.left as int,
                                            oldpopped[pi0].1 + ed.cost,
                                            p.1 + ed.cost,
                                        );
                                    }
                                }
                            }
                        }
                    }
                    // The removed record still undercuts the queue.
                    assert forall|pi: int, x: (int, int)|
                        0 <= pi < popped.len() && #[trigger] qe_fin.contains(x) implies (
                    #[trigger] popped[pi]).1 <= x.1 by {
                        if oldqe.contains(x) {
                            if pi < oldpopped.len() {
                                assert(oldpopped[pi].1 <= x.1);
                            } else {
                                assert(popcost as int <= x.1);
                            }
                        } else {
                            assert(x.1 >= popcost as int);
                            if pi < oldpopped.len() {
                                assert(oldqe.contains(newentry));
                                assert(oldpopped[pi].1 <= popcost as int);
                            }
                        }
                    }
                    // Every counted node has a removal on record.
                    assert forall|u: int| 0 <= u < n && #[trigger] counts@[u] >= 1 implies exists|
                        pi: int,
                    | 0 <= pi < popped.len() && (#[trigger] popped[pi]).0 == u by {
                        if u == endpos as int {
                            assert(popped[popped.len() - 1].0 == u);
                        } else {
                            assert(oldcounts[u] >= 1);
                            let pi = choose|pi: int|
                                0 <= pi < oldpopped.len() && (#[trigger] oldpopped[pi]).0 == u;
                            assert(popped[pi].0 == u);
                        }
                    }
                }
            }
        }
        proof {
            // If the endpoints are joined by any walk, the queue cannot
            // have drained before the first path was found: the closure
            // records would bound an impossible cost.
            if k >= 1 && shortest@.len() == 0 {
                assert(todo@.len() == 0);
                assert forall|w: Seq<(int, int)>| !(#[trigger] walk_from_to(
                    *graph,
                    w,
                    srci as int,
                    dsti as int,
                )) by {
                    if walk_from_to(*graph, w, srci as int, dsti as int) {
                        lemma_queue_bound(
                            *graph,
                            queue_ends(todo@),
                            popped,
                            w,
                            dsti as int,
                            walk_cost(w) + 1,
                            w.len() - 1,
                        );
                        if !(walk_cost(w) + 1 <= w[w.len() - 1].1) {
                            let pi = choose|pi: int|
                                0 <= pi < popped.len() && (#[trigger] popped[pi]).0 == w[w.len()
                                    - 1].0 && popped[pi].1 <= w[w.len() - 1].1;
                            assert(false);
                        }
                    }
                }
            }
        }
        Ok(shortest)
    }
}

impl MultiRouting for WikipediaKSP {
    fn k_shortest(graph: &Graph, src: &str, dst: &str, k: usize) -> (r: Result<
        Vec<Path>,
        SearchError,
    >) {
        (WikipediaKSP).k_shortest_paths(graph, src, dst, k)
    }
}

} // verus!
