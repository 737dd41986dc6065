//! K-shortest-path search over weighted, essentially undirected graphs.
//!
//! The crate provides a graph/path data model, Dijkstra-style distance
//! colouring and point-to-point routing engines, two K-shortest-path
//! enumeration strategies, and the PeeK graph-pruning preprocessor.
//!
//! Edge costs are fixed-point numbers held in `u64`; `INFINITY` (the largest
//! `u64`) is the absorbing "unreachable" sentinel, and cost addition
//! saturates there, mirroring how IEEE floating-point addition saturates at
//! positive infinity.

use vstd::prelude::*;

pub mod clock;
pub mod dist;
pub mod graph;
pub mod ksp;
pub mod numfmt;
pub mod path;
pub mod pipeline;
pub mod sssp;
pub mod steps;
pub mod strutil;
pub mod trans;
pub mod xml;

verus! {

/// The absorbing "unreachable" cost. Cost sums saturate here.
pub const INFINITY: u64 = 0xFFFF_FFFF_FFFF_FFFF;

/// Mathematical saturating addition on costs: any sum that would reach
/// `INFINITY` collapses to `INFINITY`.
pub open spec fn sat_add_spec(a: u64, b: u64) -> u64 {
    if a + b >= INFINITY {
        INFINITY
    } else {
        (a + b) as u64
    }
}

/// Adds two costs, saturating at `INFINITY`.
pub fn sat_add(a: u64, b: u64) -> (r: u64)
    ensures
        r == sat_add_spec(a, b),
{
    a.saturating_add(b)
}

/// Saturating cost addition is associative.
pub proof fn lemma_sat_add_assoc(a: u64, b: u64, c: u64)
    ensures
        sat_add_spec(a, sat_add_spec(b, c)) == sat_add_spec(sat_add_spec(a, b), c),
{
}

} // verus!
