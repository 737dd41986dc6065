//! An SSSP wrapper that records how long each call took.

use vstd::prelude::*;

verus! {

use crate::clock::{instant_now, instant_elapsed, duration_nanos};
use crate::graph::{Graph, SearchError};
use crate::path::Path;
use crate::sssp::SingleShortestPath;

/// A wrapper around another SSSP engine that records the duration of each
/// `shortest` call, in nanoseconds.
pub struct ProfilingSSSP<S> {
    /// The wrapped engine.
    pub sssp: S,
    /// The recorded durations, in nanoseconds, one per call.
    pub timings: Vec<u64>,
}

impl<S> ProfilingSSSP<S> {
    /// Wraps the given SSSP engine, with an empty record.
    pub fn new(sssp: S) -> (r: Self)
        ensures
            r.sssp == sssp,
            r.timings@.len() == 0,
    {
        ProfilingSSSP { sssp, timings: Vec::new() }
    }
}

impl<S: SingleShortestPath> SingleShortestPath for ProfilingSSSP<S> {
    fn shortest(&mut self, graph: &Graph, src: &str, dst: &str) -> (r: Result<
        Path,
        SearchError,
    >) {
        let start = instant_now();
        let path = self.sssp.shortest(graph, src, dst);
        let spent = instant_elapsed(&start);
        let nanos = duration_nanos(&spent);
        #[verifier::truncate]
        let nanos64 = nanos as u64;
        self.timings.push(nanos64);
        path
    }
}

} // verus!
