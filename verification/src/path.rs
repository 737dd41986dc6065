//! Paths between two nodes: ordered hop sequences with cumulative costs.

use vstd::prelude::*;

verus! {

use crate::graph::{
    Graph,
    edge_connects,
    lemma_node_index,
    node_index,
    walk_from_to,
    walk_cost,
    walk_step,
};
use crate::{INFINITY, sat_add_spec};

/// A path through a graph: an ordered sequence of hops, each a node
/// identifier together with the cumulative cost of reaching it from the
/// first hop.
///
/// Two paths are equal exactly when their node-identifier sequences are
/// equal; the recorded costs are deliberately ignored, so that candidate
/// sets collapse structurally identical paths whose costs were recomputed
/// differently.
#[derive(Debug)]
pub struct Path {
    /// The hops of the path.
    pub hops: Vec<(String, u64)>,
}

impl Path {
    /// The sequence of node identifiers visited, costs stripped.
    pub open spec fn node_seq(self) -> Seq<Seq<char>> {
        self.hops@.map_values(|h: (String, u64)| h.0@)
    }

    /// The sequence of cumulative costs along the path.
    pub open spec fn cost_seq(self) -> Seq<u64> {
        self.hops@.map_values(|h: (String, u64)| h.1)
    }

    /// The cumulative cost recorded at the final hop, zero for an empty path.
    pub open spec fn spec_cost(self) -> u64 {
        if self.hops@.len() == 0 {
            0
        } else {
            self.hops@[self.hops@.len() - 1].1
        }
    }

    /// Returns the identifier of the endpoint of this path, if any.
    pub fn end(&self) -> (r: Option<&String>)
        ensures
            match r {
                Some(id) => self.hops@.len() >= 1 && id@ == self.hops@[self.hops@.len() - 1].0@,
                None => self.hops@.len() == 0,
            },
    {
        match self.hops.last() {
            Some(h) => Some(&h.0),
            None => None,
        }
    }

    /// Returns the cost of this path: the cumulative cost of its last hop.
    pub fn cost(&self) -> (c: u64)
        ensures
            c == self.spec_cost(),
    {
        match self.hops.last() {
            Some(h) => h.1,
            None => 0,
        }
    }

    /// Renders the path as `first -cost-> second -cost-> ...`, where each
    /// printed cost is the cumulative cost at the hop it precedes.
    pub fn describe(&self) -> (r: String)
        ensures
            r@ == describe_from(self.hops@, 0),
    {
        let mut out = String::new();
        let mut i: usize = 0;
        let n = self.hops.len();
        proof {
            assert(out@ + describe_from(self.hops@, 0) =~= describe_from(self.hops@, 0));
        }
        while i < n
            invariant
                n == self.hops@.len(),
                i <= n,
                out@ + describe_from(self.hops@, i as int) == describe_from(self.hops@, 0),
            decreases n - i,
        {
            let ghost pre = out@;
            if i > 0 {
                out.append(" -");
                out.append(crate::numfmt::cost_string(self.hops[i].1).as_str());
                out.append("-> ");
            }
            out.append(self.hops[i].0.as_str());
            proof {
                if i == 0 {
                    assert(describe_from(self.hops@, 0) == self.hops@[0].0@ + describe_from(
                        self.hops@,
                        1,
                    ));
                    assert(out@ =~= pre + self.hops@[0].0@);
                } else {
                    assert(describe_from(self.hops@, i as int) == " -"@ + crate::numfmt::cost_seq(
                        self.hops@[i as int].1,
                    ) + "-> "@ + self.hops@[i as int].0@ + describe_from(self.hops@, i + 1));
                    assert(out@ =~= pre + " -"@ + crate::numfmt::cost_seq(self.hops@[i as int].1)
                        + "-> "@ + self.hops@[i as int].0@);
                }
                assert(out@ + describe_from(self.hops@, i + 1) =~= pre + describe_from(
                    self.hops@,
                    i as int,
                ));
            }
            i = i + 1;
        }
        proof {
            assert(describe_from(self.hops@, n as int) =~= Seq::<char>::empty());
            assert(out@ =~= out@ + describe_from(self.hops@, n as int));
        }
        out
    }
}

impl Clone for Path {
    /// Clones the path, preserving hops exactly.
    fn clone(&self) -> (r: Self)
        ensures
            r.hops@ =~= self.hops@,
    {
        let mut hops: Vec<(String, u64)> = Vec::new();
        let n = self.hops.len();
        let mut i: usize = 0;
        while i < n
            invariant
                n == self.hops@.len(),
                i <= n,
                hops@.len() == i,
                forall|j: int| 0 <= j < i ==> hops@[j] == self.hops@[j],
            decreases n - i,
        {
            hops.push((self.hops[i].0.clone(), self.hops[i].1));
            i = i + 1;
        }
        Path { hops }
    }
}

impl Path {
    /// What path equality means: the node-identifier sequences agree
    /// pointwise; costs play no part.
    pub open spec fn same_nodes(self, other: Path) -> bool {
        &&& self.hops@.len() == other.hops@.len()
        &&& forall|i: int|
            0 <= i < self.hops@.len() ==> (#[trigger] self.hops@[i].0)@ == (
            #[trigger] other.hops@[i].0)@
    }
}

impl PartialEq for Path {
    /// Paths compare equal exactly when their node sequences match.
    fn eq(&self, other: &Self) -> (r: bool) {
        let n = self.hops.len();
        if n != other.hops.len() {
            return false;
        }
        let mut i: usize = 0;
        while i < n
            invariant
                n == self.hops@.len(),
                n == other.hops@.len(),
                i <= n,
                forall|j: int|
                    0 <= j < i ==> (#[trigger] self.hops@[j].0)@ == (#[trigger] other.hops@[j].0)@,
            decreases n - i,
        {
            if !(self.hops[i].0 == other.hops[i].0) {
                return false;
            }
            i = i + 1;
        }
        true
    }
}

impl vstd::std_specs::cmp::PartialEqSpecImpl for Path {
    open spec fn obeys_eq_spec() -> bool {
        true
    }

    open spec fn eq_spec(&self, other: &Path) -> bool {
        self.same_nodes(*other)
    }
}

/// Path identity ignores cost: two paths visiting the same node identifiers
/// in the same order compare equal, whatever costs each records, and two
/// paths that compare equal visit the same node identifiers.
pub proof fn lemma_path_eq_ignores_cost(p1: Path, p2: Path)
    ensures
        p1.same_nodes(p2) <==> p1.node_seq() == p2.node_seq(),
{
    if p1.same_nodes(p2) {
        assert(p1.node_seq() =~= p2.node_seq());
    }
    if p1.node_seq() == p2.node_seq() {
        assert(p1.hops@.len() == p1.node_seq().len());
        assert(p2.hops@.len() == p2.node_seq().len());
        assert forall|i: int| 0 <= i < p1.hops@.len() implies (#[trigger] p1.hops@[i].0)@ == (
        #[trigger] p2.hops@[i].0)@ by {
            assert(p1.node_seq()[i] == p1.hops@[i].0@);
            assert(p2.node_seq()[i] == p2.hops@[i].0@);
        }
    }
}

/// The rendering of a path's hops from hop `i` on: the leading hop's
/// identifier bare, each later hop preceded by ` -`, its cumulative cost
/// and `-> `.
pub open spec fn describe_from(hops: Seq<(String, u64)>, i: int) -> Seq<char>
    decreases hops.len() - i,
{
    if i < 0 || i >= hops.len() {
        Seq::empty()
    } else if i == 0 {
        hops[0].0@ + describe_from(hops, 1)
    } else {
        " -"@ + crate::numfmt::cost_seq(hops[i].1) + "-> "@ + hops[i].0@ + describe_from(
            hops,
            i + 1,
        )
    }
}

/// A hop step is exact: consecutive hops are joined by an edge of the graph
/// whose cost accounts for the difference of the cumulative costs.
pub open spec fn path_step(g: Graph, p: Path, i: int) -> bool {
    exists|e: int|
        #![trigger g.edges@[e]]
        0 <= e < g.edges@.len() && {
            let le = g.edges@[e];
            &&& le.left < g.nodes@.len()
            &&& le.right < g.nodes@.len()
            &&& ((g.nodes@[le.left as int].id@ == p.hops@[i].0@ && g.nodes@[le.right as int].id@
                == p.hops@[i + 1].0@) || (g.nodes@[le.right as int].id@ == p.hops@[i].0@
                && g.nodes@[le.left as int].id@ == p.hops@[i + 1].0@))
            &&& p.hops@[i + 1].1 == sat_add_spec(p.hops@[i].1, le.cost)
        }
}

/// Validity of a returned path: non-empty, the first hop carries cost zero,
/// and every consecutive hop pair corresponds to an existing edge of the
/// graph, with cumulative costs that add the traversed edge's cost.
pub open spec fn path_ok(g: Graph, p: Path) -> bool {
    &&& p.hops@.len() >= 1
    &&& p.hops@[0].1 == 0
    &&& forall|i: int| 0 <= i < p.hops@.len() - 1 ==> #[trigger] path_step(g, p, i)
}

/// Transcribes a hop list over node positions into a `Path` over node
/// identifiers.
pub(crate) fn from_positions(graph: &Graph, ihops: &Vec<(usize, u64)>) -> (p: Path)
    requires
        graph.wf(),
        crate::graph::ipath_ok(*graph, ihops@),
        ihops@[0].1 == 0,
    ensures
        path_ok(*graph, p),
        p.hops@.len() == ihops@.len(),
        forall|i: int|
            0 <= i < ihops@.len() ==> (#[trigger] p.hops@[i]).0@ == graph.nodes@[ihops@[i].0 as int].id@
                && p.hops@[i].1 == ihops@[i].1,
{
    let total = ihops.len();
    let mut hops: Vec<(String, u64)> = Vec::new();
    let mut k: usize = 0;
    while k < total
        invariant
            graph.wf(),
            total == ihops@.len(),
            k <= total,
            hops@.len() == k,
            forall|i: int| 0 <= i < total ==> (#[trigger] ihops@[i]).0 < graph.nodes@.len(),
            forall|i: int|
                0 <= i < k ==> (#[trigger] hops@[i]).0@ == graph.nodes@[ihops@[i].0 as int].id@ && (
                #[trigger] hops@[i]).1 == ihops@[i].1,
        decreases total - k,
    {
        let idx = ihops[k].0;
        hops.push((graph.nodes[idx].id.clone(), ihops[k].1));
        k = k + 1;
    }
    let p = Path { hops };
    proof {
        assert(p.hops@[0].1 == 0);
        assert forall|i: int| 0 <= i < p.hops@.len() - 1 implies #[trigger] path_step(
            *graph,
            p,
            i,
        ) by {
            assert(crate::graph::istep(*graph, ihops@, i));
            let e = choose|e: int|
                #[trigger] crate::graph::edge_connects(
                    *graph,
                    e,
                    ihops@[i].0 as int,
                    ihops@[i + 1].0 as int,
                ) && ihops@[i + 1].1 == sat_add_spec(ihops@[i].1, graph.edges@[e].cost);
            let le = graph.edges@[e];
            assert(le.left < graph.nodes@.len() && le.right < graph.nodes@.len());
            assert((graph.nodes@[le.left as int].id@ == p.hops@[i].0@ && graph.nodes@[
                le.right as int].id@ == p.hops@[i + 1].0@) || (graph.nodes@[le.right as int].id@
                == p.hops@[i].0@ && graph.nodes@[le.left as int].id@ == p.hops@[i + 1].0@));
        }
    }
    p
}

/// Every hop identifier of a valid path names a node of the graph, as long
/// as its first hop does.
pub proof fn lemma_path_ok_ids(g: Graph, p: Path, h: int)
    requires
        path_ok(g, p),
        g.has_node(p.hops@[0].0@),
        0 <= h < p.hops@.len(),
    ensures
        g.has_node(p.hops@[h].0@),
{
    if h > 0 {
        assert(path_step(g, p, h - 1));
        let e = choose|e: int|
            #![trigger g.edges@[e]]
            0 <= e < g.edges@.len() && {
                let le = g.edges@[e];
                &&& le.left < g.nodes@.len()
                &&& le.right < g.nodes@.len()
                &&& ((g.nodes@[le.left as int].id@ == p.hops@[h - 1].0@ && g.nodes@[
                    le.right as int].id@ == p.hops@[h].0@) || (g.nodes@[le.right as int].id@
                    == p.hops@[h - 1].0@ && g.nodes@[le.left as int].id@ == p.hops@[h].0@))
                &&& p.hops@[h].1 == sat_add_spec(p.hops@[h - 1].1, le.cost)
            };
        let le = g.edges@[e];
        if g.nodes@[le.left as int].id@ == p.hops@[h - 1].0@ && g.nodes@[le.right as int].id@
            == p.hops@[h].0@ {
            assert(g.nodes@[le.right as int].id@ == p.hops@[h].0@);
        } else {
            assert(g.nodes@[le.left as int].id@ == p.hops@[h].0@);
        }
    }
}

/// Along any path whose steps are exact, cumulative costs never decrease.
pub proof fn lemma_path_costs_nondecreasing(g: Graph, p: Path)
    requires
        forall|i: int| 0 <= i < p.hops@.len() - 1 ==> #[trigger] path_step(g, p, i),
    ensures
        forall|i: int, j: int|
            0 <= i <= j < p.hops@.len() ==> (#[trigger] p.hops@[i]).1 <= (#[trigger] p.hops@[j]).1,
    decreases p.hops@.len(),
{
    assert forall|i: int, j: int| 0 <= i <= j < p.hops@.len() implies (#[trigger] p.hops@[i]).1 <= (
    #[trigger] p.hops@[j]).1 by {
        lemma_path_costs_nondecreasing_step(g, p, i, j);
    }
}

/// A valid path whose final cumulative cost stays below the sentinel
/// embeds, from any of its hops, a walk of exact cost to its end: below
/// the sentinel the saturating cumulative sums are exact, so the hops from
/// `h` on form a walk costing the remaining cumulative difference.
pub proof fn lemma_path_suffix_walk(g: Graph, p: Path, h: int)
    requires
        g.wf(),
        path_ok(g, p),
        g.has_node(p.hops@[0].0@),
        p.spec_cost() < INFINITY,
        0 <= h < p.hops@.len(),
    ensures
        exists|w: Seq<(int, int)>|
            #[trigger] walk_from_to(
                g,
                w,
                node_index(g, p.hops@[h].0@),
                node_index(g, p.hops@[p.hops@.len() - 1].0@),
            ) && walk_cost(w) == p.hops@[p.hops@.len() - 1].1 - p.hops@[h].1,
{
    let len = p.hops@.len() as int;
    lemma_path_costs_nondecreasing(g, p);
    let base = p.hops@[h].1 as int;
    let w = Seq::new(
        (len - h) as nat,
        |i: int| (node_index(g, p.hops@[h + i].0@), p.hops@[h + i].1 - base),
    );
    assert forall|i: int| 0 <= i < w.len() - 1 implies #[trigger] walk_step(g, w, i) by {
        assert(path_step(g, p, h + i));
        let e = choose|e: int|
            #![trigger g.edges@[e]]
            0 <= e < g.edges@.len() && {
                let le = g.edges@[e];
                &&& le.left < g.nodes@.len()
                &&& le.right < g.nodes@.len()
                &&& ((g.nodes@[le.left as int].id@ == p.hops@[h + i].0@ && g.nodes@[
                    le.right as int].id@ == p.hops@[h + i + 1].0@) || (g.nodes@[
                    le.right as int].id@ == p.hops@[h + i].0@ && g.nodes@[le.left as int].id@
                    == p.hops@[h + i + 1].0@))
                &&& p.hops@[h + i + 1].1 == sat_add_spec(p.hops@[h + i].1, g.edges@[e].cost)
            };
        let le = g.edges@[e];
        lemma_path_ok_ids(g, p, h + i);
        lemma_path_ok_ids(g, p, h + i + 1);
        lemma_node_index(g, p.hops@[h + i].0@);
        lemma_node_index(g, p.hops@[h + i + 1].0@);
        // Below the sentinel, the saturating step is an exact sum.
        assert(p.hops@[h + i + 1].1 <= p.hops@[len - 1].1);
        assert(p.hops@[h + i + 1].1 == p.hops@[h + i].1 + le.cost);
        if g.nodes@[le.left as int].id@ == p.hops@[h + i].0@ && g.nodes@[le.right as int].id@
            == p.hops@[h + i + 1].0@ {
            assert(node_index(g, p.hops@[h + i].0@) == le.left as int);
            assert(node_index(g, p.hops@[h + i + 1].0@) == le.right as int);
        } else {
            assert(node_index(g, p.hops@[h + i].0@) == le.right as int);
            assert(node_index(g, p.hops@[h + i + 1].0@) == le.left as int);
        }
        assert(edge_connects(g, e, w[i].0, w[i + 1].0));
        assert(w[i + 1].1 == w[i].1 + g.edges@[e].cost);
    }
    assert(walk_from_to(
        g,
        w,
        node_index(g, p.hops@[h].0@),
        node_index(g, p.hops@[len - 1].0@),
    ) && walk_cost(w) == p.hops@[len - 1].1 - p.hops@[h].1);
}

proof fn lemma_path_costs_nondecreasing_step(g: Graph, p: Path, i: int, j: int)
    requires
        forall|k: int| 0 <= k < p.hops@.len() - 1 ==> #[trigger] path_step(g, p, k),
        0 <= i <= j < p.hops@.len(),
    ensures
        p.hops@[i].1 <= p.hops@[j].1,
    decreases j - i,
{
    if i < j {
        assert(path_step(g, p, j - 1));
        lemma_path_costs_nondecreasing_step(g, p, i, j - 1);
    }
}

} // verus!
