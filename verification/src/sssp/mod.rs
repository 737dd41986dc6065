//! Single-source shortest-path engines: computing one cheapest path
//! between two specific nodes.

use vstd::prelude::*;

pub mod dijkstra;
pub mod profiled;

verus! {

use crate::graph::{Graph, SearchError, node_index, walk_from_to, walk_cost};
use crate::path::{Path, path_ok};
use crate::strutil::str_eq;

/// The error thrown when an unknown SSSP algorithm name was parsed.
#[derive(Debug)]
pub struct UnknownSsspError {
    /// The raw string that was not a recognized SSSP algorithm.
    pub unknown: String,
}

impl UnknownSsspError {
    /// A rendering of this error.
    pub fn describe(&self) -> (r: String)
        ensures
            r@ == "Unknown SSSP algorithm '"@ + self.unknown@ + "'"@,
    {
        let mut s = "Unknown SSSP algorithm '".to_owned();
        s.append(self.unknown.as_str());
        s.append("'");
        s
    }
}

/// Overview of all SSSP algorithms in the library.
#[derive(Clone, Copy, Debug, PartialEq, Eq, Structural, Hash)]
pub enum Sssp {
    /// Dijkstra's algorithm.
    Dijkstra,
}

impl Sssp {
    /// Returns all implemented SSSP algorithms.
    pub fn all() -> (r: Vec<Sssp>)
        ensures
            r@ =~= seq![Sssp::Dijkstra],
    {
        let mut v = Vec::new();
        v.push(Sssp::Dijkstra);
        v
    }

    /// Parses an SSSP algorithm from its configuration token.
    pub fn from_str(s: &str) -> (r: Result<Sssp, UnknownSsspError>)
        ensures
            match r {
                Ok(v) => s@ == "dijkstra"@ && v == Sssp::Dijkstra,
                Err(e) => s@ != "dijkstra"@ && e.unknown@ == s@,
            },
    {
        if str_eq(s, "dijkstra") {
            Ok(Sssp::Dijkstra)
        } else {
            Err(UnknownSsspError { unknown: s.to_owned() })
        }
    }
}

/// What a routing result means: a returned path is valid in the graph,
/// leads from `src` to `dst`, costs less than the unreachable sentinel, and
/// is a cheapest one: no walk between the two nodes costs less, and some
/// walk costs exactly as much. An unknown-node failure is raised exactly
/// when an endpoint is missing from the graph, and a disconnection failure
/// only when no walk below the sentinel joins the two (valid) endpoints, so
/// that success is owed on every pair of connected endpoints within the
/// cost model's range.
pub open spec fn routing_ok(
    g: Graph,
    r: Result<Path, SearchError>,
    src: Seq<char>,
    dst: Seq<char>,
) -> bool {
    match r {
        Ok(p) => {
            &&& g.has_node(src)
            &&& g.has_node(dst)
            &&& path_ok(g, p)
            &&& p.hops@[0].0@ == src
            &&& p.hops@[p.hops@.len() - 1].0@ == dst
            &&& p.spec_cost() < crate::INFINITY
            &&& forall|w: Seq<(int, int)>|
                #[trigger] walk_from_to(g, w, node_index(g, src), node_index(g, dst))
                    ==> p.spec_cost() <= walk_cost(w)
            &&& exists|w: Seq<(int, int)>|
                #[trigger] walk_from_to(g, w, node_index(g, src), node_index(g, dst))
                    && walk_cost(w) == p.spec_cost()
        },
        Err(e) => match e {
            SearchError::UnknownNode => !g.has_node(src) || !g.has_node(dst),
            SearchError::Disconnected => g.has_node(src) && g.has_node(dst) && forall|
                w: Seq<(int, int)>,
            |
                #[trigger] walk_from_to(g, w, node_index(g, src), node_index(g, dst))
                    ==> walk_cost(w) >= crate::INFINITY,
        },
    }
}

/// An abstraction over algorithms that compute a single cheapest path
/// between two nodes of a graph.
pub trait Routing {
    /// Finds a cheapest path from `src` to `dst`.
    fn shortest(graph: &Graph, src: &str, dst: &str) -> (r: Result<Path, SearchError>)
        requires
            graph.wf(),
        ensures
            routing_ok(*graph, r, src@, dst@),
    ;
}

/// The same capability for engines carried as values, so that a wrapper can
/// keep state (such as profiling records) across calls.
pub trait SingleShortestPath {
    /// Finds a cheapest path from `src` to `dst`.
    fn shortest(&mut self, graph: &Graph, src: &str, dst: &str) -> (r: Result<Path, SearchError>)
        requires
            graph.wf(),
        ensures
            routing_ok(*graph, r, src@, dst@),
    ;
}

} // verus!
