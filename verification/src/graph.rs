//! Representation of the graphs that the KSP algorithms search in.

use vstd::prelude::*;

verus! {

use crate::strutil::str_eq;
use crate::INFINITY;

/// The failures a search can report: either a supplied node identifier is
/// absent from the graph, or no path exists between two otherwise valid
/// nodes.
#[derive(Clone, Copy, Debug, PartialEq, Eq, Structural)]
pub enum SearchError {
    /// A supplied source, destination or target identifier names no node of
    /// the graph.
    UnknownNode,
    /// The two endpoints are valid but no path joins them.
    Disconnected,
}

impl SearchError {
    /// A short description of the failure.
    pub fn describe(&self) -> (r: &'static str)
        ensures
            *self is UnknownNode ==> r@ == "unknown node"@,
            *self is Disconnected ==> r@ == "nodes are not connected"@,
    {
        match self {
            SearchError::UnknownNode => "unknown node",
            SearchError::Disconnected => "nodes are not connected",
        }
    }
}

/// A node of the graph. The position is metadata for external renderers
/// (held in fixed-point coordinates); no algorithm reads it.
#[derive(Clone, Debug)]
pub struct Node {
    /// The identifier of the node, unique within its graph.
    pub id: String,
    /// Fixed-point X coordinate of the node, renderer metadata only.
    pub xpos: i64,
    /// Fixed-point Y coordinate of the node, renderer metadata only.
    pub ypos: i64,
}

/// A link between two nodes, conceptually bidirectional: it connects `left`
/// and `right` symmetrically. Endpoints are held as positions into the
/// graph's node list.
#[derive(Clone, Debug)]
pub struct Edge {
    /// The identifier of the edge, unique within its graph.
    pub id: String,
    /// Position of the first endpoint in the graph's node list.
    pub left: usize,
    /// Position of the second endpoint in the graph's node list.
    pub right: usize,
    /// The fixed-point cost of traversing the edge; always below `INFINITY`.
    pub cost: u64,
}

/// A graph of nodes linked by edges.
#[derive(Clone, Debug)]
pub struct Graph {
    /// The nodes in the graph.
    pub nodes: Vec<Node>,
    /// The edges in the graph.
    pub edges: Vec<Edge>,
}

impl Graph {
    /// Well-formedness: edge endpoints reference existing nodes, edge costs
    /// are finite, and node identifiers are unique.
    pub open spec fn wf(self) -> bool {
        &&& forall|e: int|
            0 <= e < self.edges@.len() ==> (#[trigger] self.edges@[e]).left < self.nodes@.len()
                && self.edges@[e].right < self.nodes@.len() && self.edges@[e].cost < INFINITY
        &&& forall|i: int, j: int|
            0 <= i < j < self.nodes@.len() ==> (#[trigger] self.nodes@[i].id)@ != (
            #[trigger] self.nodes@[j].id)@
    }

    /// The number of nodes in the graph.
    pub fn node_count(&self) -> (n: usize)
        ensures
            n == self.nodes@.len(),
    {
        self.nodes.len()
    }

    /// Whether some node of the graph carries the identifier.
    pub open spec fn has_node(self, id: Seq<char>) -> bool {
        exists|i: int| 0 <= i < self.nodes@.len() && (#[trigger] self.nodes@[i].id)@ == id
    }

    /// Looks a node up by its identifier, returning its position in the node
    /// list.
    pub fn find_node(&self, id: &str) -> (r: Option<usize>)
        ensures
            match r {
                Some(i) => i < self.nodes@.len() && self.nodes@[i as int].id@ == id@,
                None => !self.has_node(id@),
            },
    {
        let n = self.nodes.len();
        let mut i: usize = 0;
        while i < n
            invariant
                n == self.nodes@.len(),
                i <= n,
                forall|j: int| 0 <= j < i ==> (#[trigger] self.nodes@[j].id)@ != id@,
            decreases n - i,
        {
            if str_eq(self.nodes[i].id.as_str(), id) {
                return Some(i);
            }
            i = i + 1;
        }
        None
    }
}

/// Defines errors from parsing graph format names from strings.
#[derive(Debug)]
pub struct GraphFormatParseError {
    /// The string that was not recognized.
    pub unknown: String,
}

impl GraphFormatParseError {
    /// A rendering of this error.
    pub fn describe(&self) -> (r: String)
        ensures
            r@ == "Unknown graph format identifier '"@ + self.unknown@ + "'"@,
    {
        let mut s = "Unknown graph format identifier '".to_owned();
        s.append(self.unknown.as_str());
        s.append("'");
        s
    }
}

/// Lists all graph serialization formats the surrounding tooling can load.
#[derive(Clone, Copy, Debug, PartialEq, Eq, Structural, Hash)]
pub enum GraphFormat {
    /// A directly serialized graph as JSON.
    Json,
    /// An XML description of SNDLib networks.
    SNDLibXml,
}

impl GraphFormat {
    /// Returns a list of all supported formats.
    pub fn all() -> (r: Vec<GraphFormat>)
        ensures
            r@ =~= seq![GraphFormat::Json, GraphFormat::SNDLibXml],
    {
        let mut v = Vec::new();
        v.push(GraphFormat::Json);
        v.push(GraphFormat::SNDLibXml);
        v
    }

    /// Parses a graph format from its identifier.
    pub fn from_str(s: &str) -> (r: Result<GraphFormat, GraphFormatParseError>)
        ensures
            match r {
                Ok(v) => (s@ == "json"@ && v == GraphFormat::Json) || (s@ == "sndlib_xml"@ && v
                    == GraphFormat::SNDLibXml),
                Err(e) => s@ != "json"@ && s@ != "sndlib_xml"@ && e.unknown@ == s@,
            },
    {
        if str_eq(s, "json") {
            Ok(GraphFormat::Json)
        } else if str_eq(s, "sndlib_xml") {
            Ok(GraphFormat::SNDLibXml)
        } else {
            Err(GraphFormatParseError { unknown: s.to_owned() })
        }
    }
}

/// The default for whether a serialized graph's edges are bidirectional,
/// used when a graph description leaves the flag out.
pub fn default_bidirectional() -> (r: bool)
    ensures
        r == true,
{
    true
}

/// The reasons assembling a graph from raw parts can fail.
#[derive(Clone, Copy, Debug, PartialEq, Eq, Structural)]
pub enum GraphBuildError {
    /// Two nodes carry the same identifier.
    DuplicateNode,
    /// An edge references a node identifier that does not exist.
    UnknownEndpoint,
    /// An edge cost reaches the unreachable sentinel.
    CostTooLarge,
}

/// A raw edge as a loader supplies it: identifier, the two endpoint node
/// identifiers, and the cost.
pub type RawEdge = (String, String, String, u64);

/// Two raw nodes of the list carry the same identifier.
pub open spec fn duplicate_node_ids(nodes: Seq<(String, i64, i64)>) -> bool {
    exists|p: int, q: int|
        0 <= p < q < nodes.len() && (#[trigger] nodes[p]).0@ == (#[trigger] nodes[q]).0@
}

/// Both endpoint identifiers of the raw edge name nodes of the list.
pub open spec fn edge_endpoints_known(nodes: Seq<(String, i64, i64)>, e: RawEdge) -> bool {
    &&& exists|i: int| 0 <= i < nodes.len() && (#[trigger] nodes[i]).0@ == e.1@
    &&& exists|i: int| 0 <= i < nodes.len() && (#[trigger] nodes[i]).0@ == e.2@
}

impl Graph {
    /// Assembles a well-formed graph from raw parts: nodes as
    /// `(identifier, x, y)` and edges referencing nodes by identifier.
    /// Assembly succeeds exactly when the node identifiers are pairwise
    /// distinct, every edge endpoint names a node, and every edge cost
    /// stays below the unreachable sentinel; each failure names its cause.
    pub fn assemble(nodes: Vec<(String, i64, i64)>, edges: Vec<RawEdge>) -> (r: Result<
        Graph,
        GraphBuildError,
    >)
        ensures
            match r {
                Ok(g) => {
                    &&& g.wf()
                    &&& !duplicate_node_ids(nodes@)
                    &&& forall|e: int|
                        0 <= e < edges@.len() ==> edge_endpoints_known(
                            nodes@,
                            #[trigger] edges@[e],
                        ) && edges@[e].3 < INFINITY
                    &&& g.nodes@.len() == nodes@.len()
                    &&& forall|i: int|
                        0 <= i < nodes@.len() ==> (#[trigger] g.nodes@[i]).id@ == nodes@[i].0@
                            && g.nodes@[i].xpos == nodes@[i].1 && g.nodes@[i].ypos == nodes@[i].2
                    &&& g.edges@.len() == edges@.len()
                    &&& forall|e: int|
                        0 <= e < edges@.len() ==> {
                            let ge = #[trigger] g.edges@[e];
                            &&& ge.id@ == edges@[e].0@
                            &&& ge.left < g.nodes@.len() && g.nodes@[ge.left as int].id@ == edges@[
                                e].1@
                            &&& ge.right < g.nodes@.len() && g.nodes@[ge.right as int].id@
                                == edges@[e].2@
                            &&& ge.cost == edges@[e].3
                        }
                },
                Err(e) => match e {
                    GraphBuildError::DuplicateNode => duplicate_node_ids(nodes@),
                    GraphBuildError::UnknownEndpoint => !duplicate_node_ids(nodes@) && exists|
                        f: int,
                    |
                        0 <= f < edges@.len() && !edge_endpoints_known(
                            nodes@,
                            #[trigger] edges@[f],
                        ),
                    GraphBuildError::CostTooLarge => !duplicate_node_ids(nodes@) && exists|f: int|
                        0 <= f < edges@.len() && (#[trigger] edges@[f]).3 == INFINITY,
                },
            },
    {
        let mut g = Graph { nodes: Vec::new(), edges: Vec::new() };
        let ncount = nodes.len();
        let mut i: usize = 0;
        while i < ncount
            invariant
                ncount == nodes@.len(),
                i <= ncount,
                g.edges@.len() == 0,
                g.nodes@.len() == i,
                forall|j: int|
                    0 <= j < i ==> (#[trigger] g.nodes@[j]).id@ == nodes@[j].0@ && g.nodes@[j].xpos
                        == nodes@[j].1 && g.nodes@[j].ypos == nodes@[j].2,
                forall|p: int, q: int|
                    0 <= p < q < i ==> (#[trigger] g.nodes@[p].id)@ != (#[trigger] g.nodes@[q].id)@,
            decreases ncount - i,
        {
            match g.find_node(nodes[i].0.as_str()) {
                Some(j) => {
                    proof {
                        assert(g.nodes@[j as int].id@ == nodes@[j as int].0@);
                        assert(duplicate_node_ids(nodes@)) by {
                            assert(0 <= j < i as int && (nodes@[j as int]).0@ == (nodes@[
                                i as int]).0@);
                        }
                    }
                    return Err(GraphBuildError::DuplicateNode);
                },
                None => {},
            }
            let id = nodes[i].0.clone();
            let xpos = nodes[i].1;
            let ypos = nodes[i].2;
            g.nodes.push(Node { id, xpos, ypos });
            i = i + 1;
        }
        proof {
            // The node identifiers went in pairwise distinct.
            assert forall|p: int, q: int| 0 <= p < q < nodes@.len() implies (
            #[trigger] nodes@[p]).0@ != (#[trigger] nodes@[q]).0@ by {
                assert(g.nodes@[p].id@ == nodes@[p].0@ && g.nodes@[q].id@ == nodes@[q].0@);
            }
            assert(!duplicate_node_ids(nodes@));
        }
        let ecount = edges.len();
        let mut e: usize = 0;
        while e < ecount
            invariant
                ncount == nodes@.len(),
                ecount == edges@.len(),
                e <= ecount,
                !duplicate_node_ids(nodes@),
                g.nodes@.len() == ncount,
                forall|j: int|
                    0 <= j < ncount ==> (#[trigger] g.nodes@[j]).id@ == nodes@[j].0@ && g.nodes@[
                        j].xpos == nodes@[j].1 && g.nodes@[j].ypos == nodes@[j].2,
                forall|p: int, q: int|
                    0 <= p < q < ncount ==> (#[trigger] g.nodes@[p].id)@ != (
                    #[trigger] g.nodes@[q].id)@,
                g.edges@.len() == e,
                forall|f: int|
                    0 <= f < e ==> {
                        let ge = #[trigger] g.edges@[f];
                        &&& ge.id@ == edges@[f].0@
                        &&& ge.left < ncount && g.nodes@[ge.left as int].id@ == edges@[f].1@
                        &&& ge.right < ncount && g.nodes@[ge.right as int].id@ == edges@[f].2@
                        &&& ge.cost == edges@[f].3
                        &&& ge.cost < INFINITY
                    },
            decreases ecount - e,
        {
            let left = match g.find_node(edges[e].1.as_str()) {
                Some(p) => p,
                None => {
                    proof {
                        assert(!edge_endpoints_known(nodes@, edges@[e as int])) by {
                            assert forall|i2: int| 0 <= i2 < nodes@.len() implies (
                            #[trigger] nodes@[i2]).0@ != edges@[e as int].1@ by {
                                if nodes@[i2].0@ == edges@[e as int].1@ {
                                    assert(g.nodes@[i2].id@ == edges@[e as int].1@);
                                    assert(g.has_node(edges@[e as int].1@));
                                }
                            }
                        }
                    }
                    return Err(GraphBuildError::UnknownEndpoint);
                },
            };
            let right = match g.find_node(edges[e].2.as_str()) {
                Some(p) => p,
                None => {
                    proof {
                        assert(!edge_endpoints_known(nodes@, edges@[e as int])) by {
                            assert forall|i2: int| 0 <= i2 < nodes@.len() implies (
                            #[trigger] nodes@[i2]).0@ != edges@[e as int].2@ by {
                                if nodes@[i2].0@ == edges@[e as int].2@ {
                                    assert(g.nodes@[i2].id@ == edges@[e as int].2@);
                                    assert(g.has_node(edges@[e as int].2@));
                                }
                            }
                        }
                    }
                    return Err(GraphBuildError::UnknownEndpoint);
                },
            };
            let cost = edges[e].3;
            if cost == INFINITY {
                proof {
                    assert(0 <= e < edges@.len() && (edges@[e as int]).3 == INFINITY);
                }
                return Err(GraphBuildError::CostTooLarge);
            }
            let id = edges[e].0.clone();
            g.edges.push(Edge { id, left, right, cost });
            e = e + 1;
        }
        proof {
            assert forall|f: int| 0 <= f < edges@.len() implies edge_endpoints_known(
                nodes@,
                #[trigger] edges@[f],
            ) && edges@[f].3 < INFINITY by {
                let ge = g.edges@[f];
                assert(nodes@[ge.left as int].0@ == edges@[f].1@);
                assert(nodes@[ge.right as int].0@ == edges@[f].2@);
                assert(ge.cost == edges@[f].3 && ge.cost < INFINITY);
            }
        }
        Ok(g)
    }
}

/// The raw edge `t` is the reverse of one of the edges of `orig`, under
/// that edge's identifier suffixed with `-REV`.
pub open spec fn reverse_of_some(orig: Seq<RawEdge>, t: RawEdge) -> bool {
    exists|j: int|
        0 <= j < orig.len() && t.0@ == (#[trigger] orig[j]).0@ + "-REV"@ && t.1@ == orig[j].2@
            && t.2@ == orig[j].1@ && t.3 == orig[j].3
}

/// Some edge of the list is a reverse twin of edge `i`: its endpoint
/// identifiers are edge `i`'s, swapped.
pub open spec fn has_reverse_in(edges: Seq<RawEdge>, i: int) -> bool {
    exists|j: int|
        0 <= j < edges.len() && (#[trigger] edges[j]).1@ == edges[i].2@ && edges[j].2@ == edges[
            i].1@
}

/// How many of the first `upto` edges lack a reverse twin in the list.
pub open spec fn twinless_count(edges: Seq<RawEdge>, upto: int) -> int
    decreases upto,
{
    if upto <= 0 {
        0
    } else {
        twinless_count(edges, upto - 1) + if has_reverse_in(edges, upto - 1) {
            0int
        } else {
            1int
        }
    }
}

proof fn lemma_twinless_count_mono(edges: Seq<RawEdge>, a: int, b: int)
    requires
        a <= b,
    ensures
        twinless_count(edges, a) <= twinless_count(edges, b),
    decreases b - a,
{
    if a < b {
        lemma_twinless_count_mono(edges, a, b - 1);
    }
}

/// Adds, for every raw edge without a reverse twin, the reversed edge under
/// the original identifier suffixed with `-REV`. Graph serializations
/// declared bidirectional are completed this way before assembly.
///
/// The originals come back unchanged, in place; then, for exactly the
/// edges lacking a twin and in their order, one reversed edge each: the
/// reverse of twinless edge `i` stands at the position that skips the
/// originals and the reverses of the earlier twinless edges.
pub fn complete_bidirectional(edges: Vec<RawEdge>) -> (r: Vec<RawEdge>)
    ensures
        r@.len() == edges@.len() + twinless_count(edges@, edges@.len() as int),
        forall|i: int| 0 <= i < edges@.len() ==> #[trigger] r@[i] == edges@[i],
        forall|i: int|
            edges@.len() <= i < r@.len() ==> reverse_of_some(edges@, #[trigger] r@[i]),
        forall|i: int|
            0 <= i < edges@.len() && !has_reverse_in(edges@, i) ==> {
                let t = r@[edges@.len() + #[trigger] twinless_count(edges@, i)];
                &&& t.0@ == edges@[i].0@ + "-REV"@
                &&& t.1@ == edges@[i].2@
                &&& t.2@ == edges@[i].1@
                &&& t.3 == edges@[i].3
            },
{
    let count = edges.len();
    let mut out: Vec<RawEdge> = Vec::new();
    let mut i: usize = 0;
    while i < count
        invariant
            count == edges@.len(),
            i <= count,
            out@.len() == i,
            forall|j: int| 0 <= j < i ==> #[trigger] out@[j] == edges@[j],
        decreases count - i,
    {
        out.push(
            (
                edges[i].0.clone(),
                edges[i].1.clone(),
                edges[i].2.clone(),
                edges[i].3,
            ),
        );
        proof {
            assert(out@[i as int] == edges@[i as int]);
        }
        i = i + 1;
    }
    let mut i: usize = 0;
    while i < count
        invariant
            count == edges@.len(),
            i <= count,
            out@.len() == count + twinless_count(edges@, i as int),
            out@.len() >= count,
            forall|j: int| 0 <= j < count ==> #[trigger] out@[j] == edges@[j],
            forall|j: int| count <= j < out@.len() ==> reverse_of_some(edges@, #[trigger] out@[j]),
            forall|i2: int|
                0 <= i2 < i && !has_reverse_in(edges@, i2) ==> {
                    let t = out@[count + #[trigger] twinless_count(edges@, i2)];
                    &&& t.0@ == edges@[i2].0@ + "-REV"@
                    &&& t.1@ == edges@[i2].2@
                    &&& t.2@ == edges@[i2].1@
                    &&& t.3 == edges@[i2].3
                },
        decreases count - i,
    {
        // Look for an existing reverse twin among the original edges.
        let mut found = false;
        let mut j: usize = 0;
        while j < count
            invariant
                count == edges@.len(),
                i < count,
                j <= count,
                found <==> exists|j2: int|
                    0 <= j2 < j && (#[trigger] edges@[j2]).1@ == edges@[i as int].2@ && edges@[
                        j2].2@ == edges@[i as int].1@,
            decreases count - j,
        {
            if str_eq(edges[j].1.as_str(), edges[i].2.as_str()) && str_eq(
                edges[j].2.as_str(),
                edges[i].1.as_str(),
            ) {
                found = true;
            }
            j = j + 1;
        }
        proof {
            assert(found == has_reverse_in(edges@, i as int));
            if found {
                assert(twinless_count(edges@, i as int + 1) == twinless_count(edges@, i as int));
            } else {
                assert(twinless_count(edges@, i as int + 1) == twinless_count(edges@, i as int)
                    + 1);
            }
        }
        if !found {
            let mut rid = edges[i].0.clone();
            rid.append("-REV");
            let ghost before = out@;
            out.push((rid, edges[i].2.clone(), edges[i].1.clone(), edges[i].3));
            proof {
                let j0 = before.len() as int;
                assert forall|j2: int|
                    count <= j2 < out@.len() implies reverse_of_some(
                    edges@,
                    #[trigger] out@[j2],
                ) by {
                    if j2 < j0 {
                        assert(out@[j2] == before[j2]);
                        assert(reverse_of_some(edges@, before[j2]));
                    } else {
                        assert(out@[j2].0@ == (#[trigger] edges@[i as int]).0@ + "-REV"@ && out@[
                            j2].1@ == edges@[i as int].2@ && out@[j2].2@ == edges@[i as int].1@
                            && out@[j2].3 == edges@[i as int].3);
                    }
                }
                // The fresh reverse stands exactly where the positional
                // account expects it; the earlier ones did not move.
                assert forall|i2: int|
                    0 <= i2 < i + 1 && !has_reverse_in(edges@, i2) implies ({
                    let t = out@[count + #[trigger] twinless_count(edges@, i2)];
                    &&& t.0@ == edges@[i2].0@ + "-REV"@
                    &&& t.1@ == edges@[i2].2@
                    &&& t.2@ == edges@[i2].1@
                    &&& t.3 == edges@[i2].3
                }) by {
                    if i2 == i as int {
                        assert(count + twinless_count(edges@, i2) == j0);
                        assert(out@[j0].0@ == edges@[i as int].0@ + "-REV"@ && out@[j0].1@
                            == edges@[i as int].2@ && out@[j0].2@ == edges@[i as int].1@ && out@[
                            j0].3 == edges@[i as int].3);
                    } else {
                        lemma_twinless_count_mono(edges@, 0, i2);
                        lemma_twinless_count_mono(edges@, i2 + 1, i as int);
                        assert(twinless_count(edges@, i2 + 1) == twinless_count(edges@, i2) + 1);
                        assert(0 <= count + twinless_count(edges@, i2) < j0);
                        assert(out@[count + twinless_count(edges@, i2)] == before[count
                            + twinless_count(edges@, i2)]);
                    }
                }
            }
        }
        i = i + 1;
    }
    out
}

/// The position of the node carrying `id`, for graphs that have one.
pub open spec fn node_index(g: Graph, id: Seq<char>) -> int {
    choose|i: int| 0 <= i < g.nodes@.len() && (#[trigger] g.nodes@[i].id)@ == id
}

/// In a well-formed graph, `node_index` is the one position whose node
/// carries the identifier.
pub proof fn lemma_node_index(g: Graph, id: Seq<char>)
    requires
        g.wf(),
        g.has_node(id),
    ensures
        0 <= node_index(g, id) < g.nodes@.len(),
        g.nodes@[node_index(g, id)].id@ == id,
        forall|i: int|
            0 <= i < g.nodes@.len() && (#[trigger] g.nodes@[i].id)@ == id ==> i == node_index(
                g,
                id,
            ),
{
    let w = choose|i: int| 0 <= i < g.nodes@.len() && (#[trigger] g.nodes@[i].id)@ == id;
    assert(0 <= w < g.nodes@.len() && g.nodes@[w].id@ == id);
}

/// Edge `e` of the graph joins nodes `a` and `b` (in either orientation).
pub open spec fn edge_connects(g: Graph, e: int, a: int, b: int) -> bool {
    &&& 0 <= e < g.edges@.len()
    &&& ((g.edges@[e].left == a && g.edges@[e].right == b) || (g.edges@[e].left == b
        && g.edges@[e].right == a))
}

/// One step of a hop list over node positions: an edge joins the
/// consecutive positions and the cumulative costs differ by exactly its
/// cost (saturating at `INFINITY`).
pub open spec fn istep(g: Graph, w: Seq<(usize, u64)>, k: int) -> bool {
    exists|e: int|
        #[trigger] edge_connects(g, e, w[k].0 as int, w[k + 1].0 as int) && w[k + 1].1
            == crate::sat_add_spec(w[k].1, g.edges@[e].cost)
}

/// A well-formed hop list over node positions: non-empty, every position in
/// range, every consecutive pair joined by an edge with exact saturating
/// cumulative costs.
pub open spec fn ipath_ok(g: Graph, w: Seq<(usize, u64)>) -> bool {
    &&& w.len() >= 1
    &&& forall|k: int| 0 <= k < w.len() ==> (#[trigger] w[k]).0 < g.nodes@.len()
    &&& forall|k: int| 0 <= k < w.len() - 1 ==> #[trigger] istep(g, w, k)
}

/// One step of a ghost walk: consecutive entries are joined by an edge whose
/// cost is exactly the difference of the cumulative costs.
pub open spec fn walk_step(g: Graph, w: Seq<(int, int)>, i: int) -> bool {
    exists|e: int|
        #[trigger] edge_connects(g, e, w[i].0, w[i + 1].0) && w[i + 1].1 == w[i].1
            + g.edges@[e].cost
}

/// Every consecutive pair of the ghost walk is joined by an edge, with exact
/// cumulative costs.
pub open spec fn walk_linked(g: Graph, w: Seq<(int, int)>) -> bool {
    forall|i: int| 0 <= i < w.len() - 1 ==> #[trigger] walk_step(g, w, i)
}

/// A ghost walk from node `a` to node `b`, with cumulative costs counted
/// from zero at `a`.
pub open spec fn walk_from_to(g: Graph, w: Seq<(int, int)>, a: int, b: int) -> bool {
    &&& w.len() >= 1
    &&& w[0].0 == a
    &&& w[0].1 == 0
    &&& w[w.len() - 1].0 == b
    &&& walk_linked(g, w)
}

/// The total cost of a ghost walk: the cumulative cost at its last entry.
pub open spec fn walk_cost(w: Seq<(int, int)>) -> int {
    w[w.len() - 1].1
}

/// Cumulative costs never decrease along a linked ghost walk.
pub proof fn lemma_walk_monotone(g: Graph, w: Seq<(int, int)>, a: int, b: int)
    requires
        walk_linked(g, w),
        0 <= a <= b < w.len(),
    ensures
        w[a].1 <= w[b].1,
    decreases b - a,
{
    if a < b {
        lemma_walk_monotone(g, w, a, b - 1);
        assert(walk_step(g, w, b - 1));
        let e = choose|e: int|
            #[trigger] edge_connects(g, e, w[b - 1].0, w[b].0) && w[b].1 == w[b - 1].1 + g.edges@[
                e].cost;
    }
}

/// A linked walk read backward is again a walk, with the same total cost.
pub proof fn lemma_walk_reverse(g: Graph, w: Seq<(int, int)>)
    requires
        walk_linked(g, w),
        w.len() >= 1,
        w[0].1 == 0,
    ensures
        exists|w2: Seq<(int, int)>|
            #[trigger] walk_from_to(g, w2, w[w.len() - 1].0, w[0].0) && walk_cost(w2) == walk_cost(
                w,
            ),
{
    let n = w.len() as int;
    let total = w[n - 1].1;
    let w2 = Seq::new(w.len(), |i: int| (w[n - 1 - i].0, total - w[n - 1 - i].1));
    assert forall|i: int| 0 <= i < w2.len() - 1 implies #[trigger] walk_step(g, w2, i) by {
        assert(walk_step(g, w, n - 2 - i));
        let e = choose|e: int|
            #[trigger] edge_connects(g, e, w[n - 2 - i].0, w[n - 1 - i].0) && w[n - 1 - i].1 == w[n
                - 2 - i].1 + g.edges@[e].cost;
        assert(edge_connects(g, e, w2[i].0, w2[i + 1].0));
        assert(w2[i + 1].1 == w2[i].1 + g.edges@[e].cost);
    }
    assert(walk_from_to(g, w2, w[n - 1].0, w[0].0) && walk_cost(w2) == walk_cost(w));
}

/// Cutting a linked walk at an index yields a walk to that index, of the
/// cumulative cost recorded there.
pub proof fn lemma_walk_prefix(g: Graph, w: Seq<(int, int)>, i: int)
    requires
        walk_linked(g, w),
        w.len() >= 1,
        w[0].1 == 0,
        0 <= i < w.len(),
    ensures
        exists|w2: Seq<(int, int)>|
            #[trigger] walk_from_to(g, w2, w[0].0, w[i].0) && walk_cost(w2) == w[i].1,
{
    let w2 = w.subrange(0, i + 1);
    assert forall|x: int| 0 <= x < w2.len() - 1 implies #[trigger] walk_step(g, w2, x) by {
        assert(walk_step(g, w, x));
        let e = choose|e: int|
            #[trigger] edge_connects(g, e, w[x].0, w[x + 1].0) && w[x + 1].1 == w[x].1 + g.edges@[
                e].cost;
        assert(edge_connects(g, e, w2[x].0, w2[x + 1].0));
    }
    assert(walk_from_to(g, w2, w[0].0, w[i].0) && walk_cost(w2) == w[i].1);
}

/// The rest of a linked walk after an index is a walk from that index,
/// costing the remaining cumulative difference.
pub proof fn lemma_walk_suffix(g: Graph, w: Seq<(int, int)>, i: int)
    requires
        walk_linked(g, w),
        w.len() >= 1,
        0 <= i < w.len(),
    ensures
        exists|w2: Seq<(int, int)>|
            #[trigger] walk_from_to(g, w2, w[i].0, w[w.len() - 1].0) && walk_cost(w2) == w[w.len()
                - 1].1 - w[i].1,
{
    let tail = w.subrange(i, w.len() as int);
    assert forall|x: int| 0 <= x < tail.len() - 1 implies #[trigger] walk_step(g, tail, x) by {
        assert(walk_step(g, w, i + x));
        let e = choose|e: int|
            #[trigger] edge_connects(g, e, w[i + x].0, w[i + x + 1].0) && w[i + x + 1].1 == w[i
                + x].1 + g.edges@[e].cost;
        assert(edge_connects(g, e, tail[x].0, tail[x + 1].0));
    }
    lemma_walk_shift(g, tail, -w[i].1);
    let w2 = tail.map_values(|h: (int, int)| (h.0, h.1 + (-w[i].1)));
    assert(walk_from_to(g, w2, w[i].0, w[w.len() - 1].0) && walk_cost(w2) == w[w.len() - 1].1 - w[
        i].1);
}

/// Shifting every cumulative cost of a linked walk by the same amount keeps
/// it linked.
pub proof fn lemma_walk_shift(g: Graph, w: Seq<(int, int)>, delta: int)
    requires
        walk_linked(g, w),
    ensures
        walk_linked(g, w.map_values(|h: (int, int)| (h.0, h.1 + delta))),
{
    let shifted = w.map_values(|h: (int, int)| (h.0, h.1 + delta));
    assert forall|i: int| 0 <= i < shifted.len() - 1 implies #[trigger] walk_step(
        g,
        shifted,
        i,
    ) by {
        assert(walk_step(g, w, i));
        let e = choose|e: int|
            #[trigger] edge_connects(g, e, w[i].0, w[i + 1].0) && w[i + 1].1 == w[i].1
                + g.edges@[e].cost;
        assert(edge_connects(g, e, shifted[i].0, shifted[i + 1].0));
    }
}

} // verus!
