//! Graph-transforming preprocessing steps for K-shortest-path runs.

use vstd::prelude::*;

pub mod peek;

verus! {

use crate::graph::{
    Graph,
    SearchError,
    node_index,
    edge_connects,
    walk_from_to,
    walk_cost,
    walk_linked,
    walk_step,
    lemma_walk_monotone,
    lemma_walk_reverse,
    lemma_walk_prefix,
    lemma_walk_suffix,
};
use crate::dist::{colouring_ok, lemma_dist_lower_bound};
use crate::trans::peek::peek_bound_ok;
use crate::strutil::str_eq;
use crate::sat_add_spec;

/// The error thrown when an unknown preprocessing step name was parsed.
#[derive(Debug)]
pub struct UnknownStepError {
    /// The raw string that was not a recognized step.
    pub unknown: String,
}

impl UnknownStepError {
    /// A rendering of this error.
    pub fn describe(&self) -> (r: String)
        ensures
            r@ == "Unknown preprocess step '"@ + self.unknown@ + "'"@,
    {
        let mut s = "Unknown preprocess step '".to_owned();
        s.append(self.unknown.as_str());
        s.append("'");
        s
    }
}

/// Overview of all preprocessing steps in the library.
#[derive(Clone, Copy, Debug, PartialEq, Eq, Structural, Hash)]
pub enum Step {
    /// The PeeK graph pruning.
    Peek,
}

impl Step {
    /// Returns all implemented steps.
    pub fn all() -> (r: Vec<Step>)
        ensures
            r@ =~= seq![Step::Peek],
    {
        let mut v = Vec::new();
        v.push(Step::Peek);
        v
    }

    /// Parses a preprocessing step from its configuration token.
    pub fn from_str(s: &str) -> (r: Result<Step, UnknownStepError>)
        ensures
            match r {
                Ok(v) => s@ == "peek"@ && v == Step::Peek,
                Err(e) => s@ != "peek"@ && e.unknown@ == s@,
            },
    {
        if str_eq(s, "peek") {
            Ok(Step::Peek)
        } else {
            Err(UnknownStepError { unknown: s.to_owned() })
        }
    }
}

/// The colour of a node: the cost of the cheapest walk from the source
/// through it to the destination, read off the two distance colourings.
pub open spec fn colour_of(ds: Seq<u64>, dd: Seq<u64>, i: int) -> u64 {
    sat_add_spec(ds[i], dd[i])
}

/// How a pruned graph relates to the original, given the two colourings and
/// a bound `b`, through the ordered list `keep` of surviving node
/// positions: exactly the nodes coloured within the bound survive, in their
/// original order, and exactly the edges within the bound whose endpoints
/// both survive are carried over, with their endpoints rewritten to the new
/// positions.
pub open spec fn pruned_by_keeping(
    oldg: Graph,
    newg: Graph,
    ds: Seq<u64>,
    dd: Seq<u64>,
    b: u64,
    keep: Seq<int>,
) -> bool {
    &&& (oldg.nodes@.len() == 0 || exists|i: int|
        0 <= i < oldg.nodes@.len() && b == #[trigger] colour_of(ds, dd, i))
    &&& forall|x: int, y: int| 0 <= x < y < keep.len() ==> keep[x] < keep[y]
    &&& forall|x: int| 0 <= x < keep.len() ==> 0 <= #[trigger] keep[x] < oldg.nodes@.len()
    &&& forall|x: int| 0 <= x < keep.len() ==> colour_of(ds, dd, #[trigger] keep[x]) <= b
    &&& forall|i: int|
        0 <= i < oldg.nodes@.len() && colour_of(ds, dd, i) <= b ==> #[trigger] keep.contains(i)
    &&& newg.nodes@.len() == keep.len()
    &&& forall|x: int| 0 <= x < keep.len() ==> #[trigger] newg.nodes@[x] == oldg.nodes@[keep[x]]
    &&& forall|f: int|
        0 <= f < newg.edges@.len() ==> #[trigger] edge_has_origin(oldg, newg, keep, b, f)
    &&& forall|e: int|
        0 <= e < oldg.edges@.len() && (#[trigger] oldg.edges@[e]).cost <= b && colour_of(
            ds,
            dd,
            oldg.edges@[e].left as int,
        ) <= b && colour_of(ds, dd, oldg.edges@[e].right as int) <= b ==> exists|f: int|
            0 <= f < newg.edges@.len() && edge_carried(oldg, newg, keep, b, e, f)
}

/// Edge `f` of the pruned graph is carried over from some edge of the
/// original.
pub open spec fn edge_has_origin(oldg: Graph, newg: Graph, keep: Seq<int>, b: u64, f: int) -> bool {
    exists|e: int| #[trigger] edge_carried(oldg, newg, keep, b, e, f)
}

/// Edge `f` of the pruned graph is edge `e` of the original, within the
/// bound, with its endpoints rewritten to the surviving positions.
pub open spec fn edge_carried(
    oldg: Graph,
    newg: Graph,
    keep: Seq<int>,
    b: u64,
    e: int,
    f: int,
) -> bool {
    &&& 0 <= e < oldg.edges@.len()
    &&& 0 <= f < newg.edges@.len()
    &&& oldg.edges@[e].cost <= b
    &&& newg.edges@[f].id@ == oldg.edges@[e].id@
    &&& newg.edges@[f].cost == oldg.edges@[e].cost
    &&& newg.edges@[f].left < keep.len() && keep[newg.edges@[f].left as int] == oldg.edges@[
        e].left as int
    &&& newg.edges@[f].right < keep.len() && keep[newg.edges@[f].right as int] == oldg.edges@[
        e].right as int
}

/// The pruned graph keeps exactly the nodes coloured within some bound and
/// the edges within that bound between surviving endpoints. The two
/// colourings pin the colours, so this holds for whichever complete
/// colourings are supplied.
pub open spec fn pruned_from(oldg: Graph, newg: Graph, ds: Seq<u64>, dd: Seq<u64>) -> bool {
    exists|b: u64, keep: Seq<int>| pruned_by_keeping(oldg, newg, ds, dd, b, keep)
}

/// The position a surviving node takes in the pruned graph's node list.
pub open spec fn keep_pos(keep: Seq<int>, v: int) -> int {
    choose|x: int| 0 <= x < keep.len() && keep[x] == v
}

/// Pruning loses no walk within the bound: along any source-to-destination
/// walk whose total cost stays within the bound, every node is coloured
/// within the bound and survives, and the whole walk carries over into the
/// pruned graph at exactly its old cost. The only question this leaves
/// open is how large the bound is.
pub proof fn lemma_pruning_keeps_bounded_walks(
    oldg: Graph,
    newg: Graph,
    ds: Seq<u64>,
    dd: Seq<u64>,
    b: u64,
    keep: Seq<int>,
    w: Seq<(int, int)>,
    srci: int,
    dsti: int,
)
    requires
        oldg.wf(),
        colouring_ok(oldg, ds, srci),
        colouring_ok(oldg, dd, dsti),
        pruned_by_keeping(oldg, newg, ds, dd, b, keep),
        walk_from_to(oldg, w, srci, dsti),
        0 <= srci < oldg.nodes@.len(),
        walk_cost(w) <= b,
    ensures
        forall|i: int| 0 <= i < w.len() ==> #[trigger] keep.contains(w[i].0),
        exists|w2: Seq<(int, int)>|
            #[trigger] walk_from_to(newg, w2, keep_pos(keep, srci), keep_pos(keep, dsti))
                && walk_cost(w2) == walk_cost(w),
{
    let n = w.len() as int;
    let total = walk_cost(w);
    assert forall|i: int| 0 <= i < n implies 0 <= #[trigger] w[i].0 < oldg.nodes@.len() by {
        if i > 0 {
            assert(walk_step(oldg, w, i - 1));
            let e = choose|e: int|
                #[trigger] edge_connects(oldg, e, w[i - 1].0, w[i].0) && w[i].1 == w[i - 1].1
                    + oldg.edges@[e].cost;
            assert(oldg.edges@[e].left < oldg.nodes@.len() && oldg.edges@[e].right
                < oldg.nodes@.len());
        }
    }
    assert forall|i: int| 0 <= i < n implies colour_of(ds, dd, #[trigger] w[i].0) <= b by {
        lemma_walk_monotone(oldg, w, 0, i);
        lemma_walk_monotone(oldg, w, i, n - 1);
        lemma_walk_prefix(oldg, w, i);
        let wp = choose|wp: Seq<(int, int)>|
            #[trigger] walk_from_to(oldg, wp, w[0].0, w[i].0) && walk_cost(wp) == w[i].1;
        lemma_walk_reverse(oldg, wp);
        let wr = choose|wr: Seq<(int, int)>|
            #[trigger] walk_from_to(oldg, wr, wp[wp.len() - 1].0, wp[0].0) && walk_cost(wr)
                == walk_cost(wp);
        lemma_dist_lower_bound(oldg, ds, srci, wr);
        assert(ds[w[i].0] <= w[i].1);
        lemma_walk_suffix(oldg, w, i);
        let wsfx = choose|ws: Seq<(int, int)>|
            #[trigger] walk_from_to(oldg, ws, w[i].0, w[n - 1].0) && walk_cost(ws) == w[n - 1].1
                - w[i].1;
        lemma_dist_lower_bound(oldg, dd, dsti, wsfx);
        assert(dd[w[i].0] <= total - w[i].1);
    }
    assert forall|i: int| 0 <= i < n implies #[trigger] keep.contains(w[i].0) by {
        assert(colour_of(ds, dd, w[i].0) <= b);
    }
    assert forall|x: int, y: int|
        0 <= x < keep.len() && 0 <= y < keep.len() && keep[x] == keep[y] implies x == y by {
        if x < y {
            assert(keep[x] < keep[y]);
        }
        if y < x {
            assert(keep[y] < keep[x]);
        }
    }
    let w2 = Seq::new(w.len(), |i: int| (keep_pos(keep, w[i].0), w[i].1));
    assert forall|i: int| 0 <= i < n implies 0 <= #[trigger] w2[i].0 < keep.len() && keep[w2[i].0]
        == w[i].0 by {
        assert(keep.contains(w[i].0));
    }
    assert forall|i: int| 0 <= i < w2.len() - 1 implies #[trigger] walk_step(newg, w2, i) by {
        assert(walk_step(oldg, w, i));
        let e = choose|e: int|
            #[trigger] edge_connects(oldg, e, w[i].0, w[i + 1].0) && w[i + 1].1 == w[i].1
                + oldg.edges@[e].cost;
        let ed = oldg.edges@[e];
        lemma_walk_monotone(oldg, w, 0, i);
        lemma_walk_monotone(oldg, w, i + 1, n - 1);
        assert(ed.cost <= b);
        assert(colour_of(ds, dd, ed.left as int) <= b);
        assert(colour_of(ds, dd, ed.right as int) <= b);
        let f = choose|f: int|
            0 <= f < newg.edges@.len() && #[trigger] edge_carried(oldg, newg, keep, b, e, f);
        let nf = newg.edges@[f];
        assert(keep.contains(ed.left as int) && keep.contains(ed.right as int));
        assert(nf.left as int == keep_pos(keep, ed.left as int));
        assert(nf.right as int == keep_pos(keep, ed.right as int));
        assert(edge_connects(newg, f, w2[i].0, w2[i + 1].0));
        assert(w2[i + 1].1 == w2[i].1 + newg.edges@[f].cost);
    }
    assert(walk_from_to(newg, w2, keep_pos(keep, srci), keep_pos(keep, dsti)) && walk_cost(w2)
        == walk_cost(w));
}

/// An abstraction over algorithms that transform a graph before a
/// K-shortest-path strategy runs on it.
pub trait Transforming {
    /// Transforms the graph in place, as preprocessing for a later search
    /// for `k` paths from `src` to `dst`.
    fn transform(graph: &mut Graph, src: &str, dst: &str, k: usize) -> (r: Result<
        (),
        SearchError,
    >)
        requires
            old(graph).wf(),
        ensures
            final (graph).wf(),
            match r {
                Ok(()) => {
                    &&& old(graph).has_node(src@)
                    &&& old(graph).has_node(dst@)
                    &&& forall|ds: Seq<u64>, dd: Seq<u64>|
                        colouring_ok(*old(graph), ds, node_index(*old(graph), src@))
                            && colouring_ok(*old(graph), dd, node_index(*old(graph), dst@))
                            ==> #[trigger] pruned_from(*old(graph), *final (graph), ds, dd)
                    &&& forall|ds: Seq<u64>, dd: Seq<u64>|
                        #![trigger colouring_ok(*old(graph), ds, node_index(*old(graph), src@)), colouring_ok(*old(graph), dd, node_index(*old(graph), dst@))]
                        colouring_ok(*old(graph), ds, node_index(*old(graph), src@))
                            && colouring_ok(*old(graph), dd, node_index(*old(graph), dst@))
                            ==> exists|b: u64, keep: Seq<int>|
                            #[trigger] pruned_by_keeping(
                                *old(graph),
                                *final (graph),
                                ds,
                                dd,
                                b,
                                keep,
                            ) && peek_bound_ok(
                                *old(graph),
                                ds,
                                dd,
                                node_index(*old(graph), src@),
                                node_index(*old(graph), dst@),
                                k as int,
                                b,
                            )
                },
                Err(e) => {
                    &&& e == SearchError::UnknownNode
                    &&& !old(graph).has_node(src@) || !old(graph).has_node(dst@)
                    &&& *final (graph) == *old(graph)
                },
            },
    ;
}

} // verus!
