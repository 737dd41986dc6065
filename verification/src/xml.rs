//! The plain data model of SNDLib network descriptions, and the
//! conversions from it into the graph model. The XML reading itself is an
//! external concern; this module works on the values a reader hands over.

use vstd::prelude::*;

verus! {

use crate::graph::{
    Graph,
    GraphBuildError,
    RawEdge,
    duplicate_node_ids,
    edge_endpoints_known,
};
use crate::INFINITY;

/// Metadata flags of an SNDLib network description.
#[derive(Clone, Debug)]
pub struct XmlMetadata {
    /// The granularity of time measurements of the graph.
    pub granularity: Option<String>,
    /// The origin of the graph.
    pub origin: Option<String>,
    /// The year of recording the graph.
    pub time: Option<String>,
    /// A unit used in the graph.
    pub unit: Option<String>,
}

/// The coordinate system an SNDLib network declares for its nodes.
#[derive(Clone, Copy, Debug, PartialEq, Eq, Structural, Hash)]
pub enum XmlCoordsType {
    /// Longitude and latitude.
    Geographical,
    /// Pixels.
    Pixel,
}

/// A test case: a named source/target pair with the number of paths to
/// find.
#[derive(Clone, Debug)]
pub struct TestCase {
    /// Some name for the case.
    pub id: String,
    /// The identifier of the node to find a path from.
    pub source: String,
    /// The identifier of the node to find a path to.
    pub target: String,
    /// The number of paths to find.
    pub k: usize,
}

/// Builds a graph from the plain parts of an SNDLib network: nodes as
/// `(identifier, x, y)` and links as `(identifier, source, target, cost)`,
/// where a link without a routing cost is handed over as cost zero.
/// The build succeeds exactly when the node identifiers are pairwise
/// distinct, every link endpoint names a node, and every cost stays below
/// the unreachable sentinel; each failure names its cause.
pub fn network_to_graph(nodes: Vec<(String, i64, i64)>, links: Vec<RawEdge>) -> (r: Result<
    Graph,
    GraphBuildError,
>)
    ensures
        match r {
            Ok(g) => {
                &&& g.wf()
                &&& !duplicate_node_ids(nodes@)
                &&& forall|e: int|
                    0 <= e < links@.len() ==> edge_endpoints_known(nodes@, #[trigger] links@[e])
                        && links@[e].3 < INFINITY
                &&& g.nodes@.len() == nodes@.len()
                &&& forall|i: int|
                    0 <= i < nodes@.len() ==> (#[trigger] g.nodes@[i]).id@ == nodes@[i].0@
                &&& g.edges@.len() == links@.len()
                &&& forall|e: int|
                    0 <= e < links@.len() ==> {
                        let ge = #[trigger] g.edges@[e];
                        &&& ge.id@ == links@[e].0@
                        &&& ge.left < g.nodes@.len() && g.nodes@[ge.left as int].id@ == links@[
                            e].1@
                        &&& ge.right < g.nodes@.len() && g.nodes@[ge.right as int].id@ == links@[
                            e].2@
                        &&& ge.cost == links@[e].3
                    }
            },
            Err(e) => match e {
                GraphBuildError::DuplicateNode => duplicate_node_ids(nodes@),
                GraphBuildError::UnknownEndpoint => !duplicate_node_ids(nodes@) && exists|f: int|
                    0 <= f < links@.len() && !edge_endpoints_known(nodes@, #[trigger] links@[f]),
                GraphBuildError::CostTooLarge => !duplicate_node_ids(nodes@) && exists|f: int|
                    0 <= f < links@.len() && (#[trigger] links@[f]).3 == INFINITY,
            },
        },
{
    Graph::assemble(nodes, links)
}

/// Turns the demands of an SNDLib network into test cases, each asking for
/// a single path.
pub fn demands_to_tests(demands: Vec<(String, String, String)>) -> (r: Vec<TestCase>)
    ensures
        r@.len() == demands@.len(),
        forall|i: int|
            0 <= i < demands@.len() ==> {
                let t = #[trigger] r@[i];
                &&& t.id@ == demands@[i].0@
                &&& t.source@ == demands@[i].1@
                &&& t.target@ == demands@[i].2@
                &&& t.k == 1
            },
{
    let count = demands.len();
    let mut out: Vec<TestCase> = Vec::new();
    let mut i: usize = 0;
    while i < count
        invariant
            count == demands@.len(),
            i <= count,
            out@.len() == i,
            forall|j: int|
                0 <= j < i ==> {
                    let t = #[trigger] out@[j];
                    &&& t.id@ == demands@[j].0@
                    &&& t.source@ == demands@[j].1@
                    &&& t.target@ == demands@[j].2@
                    &&& t.k == 1
                },
        decreases count - i,
    {
        out.push(
            TestCase {
                id: demands[i].0.clone(),
                source: demands[i].1.clone(),
                target: demands[i].2.clone(),
                k: 1,
            },
        );
        i = i + 1;
    }
    out
}

} // verus!
