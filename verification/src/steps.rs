//! The data model of configurable pipeline descriptions: which algorithm
//! to run for each step, named by short configuration tokens.

use vstd::prelude::*;

verus! {

use crate::sssp::Sssp;
use crate::strutil::str_eq;

/// The error thrown when an unknown distance-colouring name was parsed.
#[derive(Debug)]
pub struct UnknownDistanceError {
    /// The raw string that was not a recognized colouring algorithm.
    pub unknown: String,
}

/// Overview of all distance-colouring algorithms in the library.
#[derive(Clone, Copy, Debug, PartialEq, Eq, Structural, Hash)]
pub enum Distance {
    /// Dijkstra's algorithm.
    Dijkstra,
}

impl Distance {
    /// Returns all implemented colouring algorithms.
    pub fn all() -> (r: Vec<Distance>)
        ensures
            r@ =~= seq![Distance::Dijkstra],
    {
        let mut v = Vec::new();
        v.push(Distance::Dijkstra);
        v
    }

    /// Parses a colouring algorithm from its configuration token.
    pub fn from_str(s: &str) -> (r: Result<Distance, UnknownDistanceError>)
        ensures
            match r {
                Ok(v) => s@ == "dijkstra"@ && v == Distance::Dijkstra,
                Err(e) => s@ != "dijkstra"@ && e.unknown@ == s@,
            },
    {
        if str_eq(s, "dijkstra") {
            Ok(Distance::Dijkstra)
        } else {
            Err(UnknownDistanceError { unknown: s.to_owned() })
        }
    }
}

/// The error thrown when an unknown KSP strategy token was parsed.
#[derive(Debug)]
pub struct UnknownKspError {
    /// The raw string that was not a recognized strategy token.
    pub unknown: String,
}

/// Overview of all K-shortest-path strategies, with the engines they run
/// on.
#[derive(Clone, Copy, Debug, PartialEq, Eq, Structural, Hash)]
pub enum Ksp {
    /// The count-per-node enumeration.
    Wikipedia,
    /// The Yen-style expansion over an SSSP engine.
    Yen(Sssp),
}

impl Ksp {
    /// Parses a strategy from its configuration token.
    pub fn from_str(s: &str) -> (r: Result<Ksp, UnknownKspError>)
        ensures
            match r {
                Ok(v) => (s@ == "wikipedia"@ && v == Ksp::Wikipedia) || (s@ == "yen<dijkstra>"@
                    && v == Ksp::Yen(Sssp::Dijkstra)),
                Err(e) => s@ != "wikipedia"@ && s@ != "yen<dijkstra>"@ && e.unknown@ == s@,
            },
    {
        if str_eq(s, "wikipedia") {
            Ok(Ksp::Wikipedia)
        } else if str_eq(s, "yen<dijkstra>") {
            Ok(Ksp::Yen(Sssp::Dijkstra))
        } else {
            Err(UnknownKspError { unknown: s.to_owned() })
        }
    }
}

/// The error thrown when an unknown transformer token was parsed.
#[derive(Debug)]
pub struct UnknownTransformerError {
    /// The raw string that was not a recognized transformer token.
    pub unknown: String,
}

/// Overview of all graph-transforming algorithms, with the engines they run
/// on.
#[derive(Clone, Copy, Debug, PartialEq, Eq, Structural, Hash)]
pub enum Transformer {
    /// The PeeK pruning over a distance-colouring engine.
    PeeK(Distance),
}

impl Transformer {
    /// Parses a transformer from its configuration token.
    pub fn from_str(s: &str) -> (r: Result<Transformer, UnknownTransformerError>)
        ensures
            match r {
                Ok(v) => s@ == "peek<dijkstra>"@ && v == Transformer::PeeK(Distance::Dijkstra),
                Err(e) => s@ != "peek<dijkstra>"@ && e.unknown@ == s@,
            },
    {
        if str_eq(s, "peek<dijkstra>") {
            Ok(Transformer::PeeK(Distance::Dijkstra))
        } else {
            Err(UnknownTransformerError { unknown: s.to_owned() })
        }
    }
}

/// A pipeline step that computes the K shortest paths between two nodes.
#[derive(Clone, Copy, Debug, PartialEq, Eq, Structural, Hash)]
pub struct PipelineStepKSP {
    /// The strategy to execute.
    pub ksp: Ksp,
}

/// A pipeline step that transforms the graph.
#[derive(Clone, Copy, Debug, PartialEq, Eq, Structural, Hash)]
pub struct PipelineStepTransform {
    /// The transformer to apply.
    pub trans: Transformer,
}

/// A pipeline step that hands the current graph to an external visualizer.
#[derive(Clone, Debug)]
pub struct PipelineStepVisualize {
    /// What to label nodes with.
    pub labels: NodeLabels,
}

/// What an external visualizer should label nodes with.
#[derive(Clone, Debug)]
pub enum NodeLabels {
    /// Their identifiers.
    Identifiers,
    /// Their distance colours towards a given node.
    Distance(NodeLabelsDistance),
}

/// The settings for distance labels.
#[derive(Clone, Debug)]
pub struct NodeLabelsDistance {
    /// The colouring algorithm to use.
    pub dist: Distance,
    /// The node to compute distances to.
    pub node: String,
}

/// A step in a configurable pipeline description.
#[derive(Clone, Debug)]
pub enum PipelineStep {
    /// Apply a KSP strategy.
    KShortestPath(PipelineStepKSP),
    /// Apply a graph transformation.
    Transform(PipelineStepTransform),
    /// Hand the graph to an external visualizer.
    Visualize(PipelineStepVisualize),
}

impl From<PipelineStepKSP> for PipelineStep {
    fn from(value: PipelineStepKSP) -> (r: Self) {
        PipelineStep::KShortestPath(value)
    }
}

impl vstd::std_specs::convert::FromSpecImpl<PipelineStepKSP> for PipelineStep {
    open spec fn obeys_from_spec() -> bool {
        true
    }

    open spec fn from_spec(value: PipelineStepKSP) -> PipelineStep {
        PipelineStep::KShortestPath(value)
    }
}

impl From<PipelineStepTransform> for PipelineStep {
    fn from(value: PipelineStepTransform) -> (r: Self) {
        PipelineStep::Transform(value)
    }
}

impl vstd::std_specs::convert::FromSpecImpl<PipelineStepTransform> for PipelineStep {
    open spec fn obeys_from_spec() -> bool {
        true
    }

    open spec fn from_spec(value: PipelineStepTransform) -> PipelineStep {
        PipelineStep::Transform(value)
    }
}

impl From<PipelineStepVisualize> for PipelineStep {
    fn from(value: PipelineStepVisualize) -> (r: Self) {
        PipelineStep::Visualize(value)
    }
}

impl vstd::std_specs::convert::FromSpecImpl<PipelineStepVisualize> for PipelineStep {
    open spec fn obeys_from_spec() -> bool {
        true
    }

    open spec fn from_spec(value: PipelineStepVisualize) -> PipelineStep {
        PipelineStep::Visualize(value)
    }
}

} // verus!
