//! K-shortest-path strategies: computing the `k` cheapest paths between
//! two nodes of a graph.

use vstd::prelude::*;

pub mod wikipedia;
pub mod yen;

verus! {

use crate::graph::{Graph, SearchError, node_index, walk_from_to, walk_cost};
use crate::path::{Path, path_ok};
use crate::strutil::str_eq;
use crate::INFINITY;

/// The error thrown when an unknown KSP algorithm name was parsed.
#[derive(Debug)]
pub struct UnknownAlgorithmError {
    /// The raw string that was not a recognized algorithm.
    pub unknown: String,
}

impl UnknownAlgorithmError {
    /// A rendering of this error.
    pub fn describe(&self) -> (r: String)
        ensures
            r@ == "Unknown KSP algorithm '"@ + self.unknown@ + "'"@,
    {
        let mut s = "Unknown KSP algorithm '".to_owned();
        s.append(self.unknown.as_str());
        s.append("'");
        s
    }
}

/// Overview of all KSP algorithms in the library.
#[derive(Clone, Copy, Debug, PartialEq, Eq, Structural, Hash)]
pub enum Algorithm {
    /// Breadth-style enumeration with per-node path-count limits.
    Wikipedia,
    /// Iterative candidate expansion built on an SSSP engine.
    Yen,
}

impl Algorithm {
    /// Returns all implemented KSP algorithms.
    pub fn all() -> (r: Vec<Algorithm>)
        ensures
            r@ =~= seq![Algorithm::Wikipedia, Algorithm::Yen],
    {
        let mut v = Vec::new();
        v.push(Algorithm::Wikipedia);
        v.push(Algorithm::Yen);
        v
    }

    /// Whether the algorithm needs an SSSP engine to run.
    pub fn needs_sssp(&self) -> (r: bool)
        ensures
            r == (*self is Yen),
    {
        match self {
            Algorithm::Wikipedia => false,
            Algorithm::Yen => true,
        }
    }

    /// Parses a KSP algorithm from its configuration token.
    pub fn from_str(s: &str) -> (r: Result<Algorithm, UnknownAlgorithmError>)
        ensures
            match r {
                Ok(v) => (s@ == "wikipedia"@ && v == Algorithm::Wikipedia) || (s@ == "yen"@ && v
                    == Algorithm::Yen),
                Err(e) => s@ != "wikipedia"@ && s@ != "yen"@ && e.unknown@ == s@,
            },
    {
        if str_eq(s, "wikipedia") {
            Ok(Algorithm::Wikipedia)
        } else if str_eq(s, "yen") {
            Ok(Algorithm::Yen)
        } else {
            Err(UnknownAlgorithmError { unknown: s.to_owned() })
        }
    }
}

/// What a K-shortest-path result means: at most `k` paths come back, each
/// valid in the graph and leading from `src` to `dst`; an unknown-node
/// failure is raised exactly when an endpoint is missing, and a
/// disconnection failure only when no walk below the unreachable sentinel
/// joins the two (valid) endpoints.
pub open spec fn ksp_ok(
    g: Graph,
    r: Result<Vec<Path>, SearchError>,
    src: Seq<char>,
    dst: Seq<char>,
    k: int,
) -> bool {
    match r {
        Ok(paths) => {
            &&& g.has_node(src)
            &&& g.has_node(dst)
            &&& paths@.len() <= k
            &&& forall|i: int|
                0 <= i < paths@.len() ==> {
                    let p = #[trigger] paths@[i];
                    &&& path_ok(g, p)
                    &&& p.hops@[0].0@ == src
                    &&& p.hops@[p.hops@.len() - 1].0@ == dst
                }
        },
        Err(e) => match e {
            SearchError::UnknownNode => !g.has_node(src) || !g.has_node(dst),
            SearchError::Disconnected => g.has_node(src) && g.has_node(dst) && forall|
                w: Seq<(int, int)>,
            |
                #[trigger] walk_from_to(g, w, node_index(g, src), node_index(g, dst))
                    ==> walk_cost(w) >= INFINITY,
        },
    }
}

/// What every K-shortest-path strategy promises of a successful result
/// beyond [`ksp_ok`]: whenever at least one path is asked for and some walk
/// joins the endpoints, at least one path comes back, and the first
/// returned path is a cheapest one — no walk between the endpoints costs
/// less, and (below the sentinel) some walk costs exactly as much.
pub open spec fn ksp_first_minimal(
    g: Graph,
    paths: Seq<Path>,
    src: Seq<char>,
    dst: Seq<char>,
    k: int,
) -> bool {
    &&& (k >= 1 && exists|w: Seq<(int, int)>|
        #[trigger] walk_from_to(g, w, node_index(g, src), node_index(g, dst))) ==> paths.len()
        >= 1
    &&& paths.len() >= 1 ==> forall|w: Seq<(int, int)>|
        #[trigger] walk_from_to(g, w, node_index(g, src), node_index(g, dst)) ==> paths[
            0].spec_cost() <= walk_cost(w)
    &&& paths.len() >= 1 && paths[0].spec_cost() < INFINITY ==> exists|w: Seq<(int, int)>|
        #[trigger] walk_from_to(g, w, node_index(g, src), node_index(g, dst)) && walk_cost(w)
            == paths[0].spec_cost()
}

/// An abstraction over algorithms that compute the K cheapest paths between
/// two nodes of a graph.
pub trait MultiRouting {
    /// Finds at most `k` cheapest paths from `src` to `dst`.
    ///
    /// The bound on `k` keeps the per-node bookkeeping within machine
    /// range.
    fn k_shortest(graph: &Graph, src: &str, dst: &str, k: usize) -> (r: Result<
        Vec<Path>,
        SearchError,
    >)
        requires
            graph.wf(),
            k < usize::MAX,
        ensures
            ksp_ok(*graph, r, src@, dst@, k as int),
            match r {
                Ok(paths) => ksp_first_minimal(*graph, paths@, src@, dst@, k as int),
                Err(_) => true,
            },
    ;
}

/// On one graph, two cost-minimal first paths between the same endpoints
/// cost the same: whichever strategy produced each, neither can undercut a
/// cost the other attains. In particular, the first paths found by the two
/// KSP strategies have identical cost.
pub proof fn lemma_first_path_costs_agree(
    g: Graph,
    p1: Path,
    p2: Path,
    src: Seq<char>,
    dst: Seq<char>,
)
    requires
        forall|w: Seq<(int, int)>|
            #[trigger] walk_from_to(g, w, node_index(g, src), node_index(g, dst))
                ==> p1.spec_cost() <= walk_cost(w),
        forall|w: Seq<(int, int)>|
            #[trigger] walk_from_to(g, w, node_index(g, src), node_index(g, dst))
                ==> p2.spec_cost() <= walk_cost(w),
        p1.spec_cost() < INFINITY ==> exists|w: Seq<(int, int)>|
            #[trigger] walk_from_to(g, w, node_index(g, src), node_index(g, dst)) && walk_cost(w)
                == p1.spec_cost(),
        p2.spec_cost() < INFINITY ==> exists|w: Seq<(int, int)>|
            #[trigger] walk_from_to(g, w, node_index(g, src), node_index(g, dst)) && walk_cost(w)
                == p2.spec_cost(),
    ensures
        p1.spec_cost() == p2.spec_cost(),
{
    if p1.spec_cost() < INFINITY {
        let w = choose|w: Seq<(int, int)>|
            #[trigger] walk_from_to(g, w, node_index(g, src), node_index(g, dst)) && walk_cost(w)
                == p1.spec_cost();
        assert(p2.spec_cost() <= walk_cost(w));
    }
    if p2.spec_cost() < INFINITY {
        let w = choose|w: Seq<(int, int)>|
            #[trigger] walk_from_to(g, w, node_index(g, src), node_index(g, dst)) && walk_cost(w)
                == p2.spec_cost();
        assert(p1.spec_cost() <= walk_cost(w));
    }
}

} // verus!
