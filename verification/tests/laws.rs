//! Cross-cutting behaviour: differential checks between the strategies,
//! soundness of the pruning preprocessor, and path identity.

use ksp::dist::Distancing;
use ksp::dist::dijkstra::Dijkstra;
use ksp::graph::{Graph, SearchError};
use ksp::ksp::MultiRouting;
use ksp::ksp::wikipedia::WikipediaKSP;
use ksp::ksp::yen::{Yen, sssp};
use ksp::path::Path;
use ksp::sssp::dijkstra::DijkstraSSSP;
use ksp::trans::peek::PeekPreprocess;
use ksp::INFINITY;

fn law_cities() -> Graph {
    let nodes = vec![
        ("Amsterdam".to_owned(), 5236, 490),
        ("Berlin".to_owned(), 5252, 1340),
        ("Chicago".to_owned(), 4187, 8762),
        ("Dorchester".to_owned(), 5071, 244),
        ("Edinburgh".to_owned(), 5595, 318),
    ];
    let edges = vec![
        (
            "Amsterdam-Berlin".to_owned(),
            "Amsterdam".to_owned(),
            "Berlin".to_owned(),
            57734,
        ),
        (
            "Amsterdam-Dorchester".to_owned(),
            "Amsterdam".to_owned(),
            "Dorchester".to_owned(),
            54086,
        ),
        (
            "Amsterdam-Edinburgh".to_owned(),
            "Amsterdam".to_owned(),
            "Edinburgh".to_owned(),
            66068,
        ),
        (
            "Dorchester-Edinburgh".to_owned(),
            "Dorchester".to_owned(),
            "Edinburgh".to_owned(),
            58923,
        ),
        (
            "Chicago-Dorchester".to_owned(),
            "Chicago".to_owned(),
            "Dorchester".to_owned(),
            624915,
        ),
    ];
    Graph::assemble(nodes, edges).unwrap()
}

/// On the same unpruned graph, the first (cheapest) path of both KSP
/// strategies has identical cost.
#[test]
fn test_first_path_costs_agree() {
    let g = law_cities();
    let pairs = [
        ("Amsterdam", "Berlin"),
        ("Amsterdam", "Chicago"),
        ("Berlin", "Chicago"),
        ("Edinburgh", "Berlin"),
        ("Chicago", "Edinburgh"),
    ];
    for (src, dst) in pairs {
        let w = WikipediaKSP.k_shortest_paths(&g, src, dst, 3).unwrap();
        let y = Yen::<DijkstraSSSP>::k_shortest(&g, src, dst, 3).unwrap();
        assert!(!w.is_empty() && !y.is_empty());
        assert_eq!(w[0].cost(), y[0].cost());
    }
}

/// Running PeeK and then Yen yields the same path costs as running Yen on
/// the unpruned graph.
#[test]
fn test_peek_preserves_path_costs() {
    for k in 1..3usize {
        let direct = Yen::<DijkstraSSSP>::k_shortest(
            &law_cities(),
            "Amsterdam",
            "Chicago",
            k,
        )
        .unwrap();
        let mut pruned = law_cities();
        PeekPreprocess::preprocess(&mut pruned, "Amsterdam", "Chicago", k).unwrap();
        let after = Yen::<DijkstraSSSP>::k_shortest(&pruned, "Amsterdam", "Chicago", k).unwrap();
        let direct_costs: Vec<u64> = direct.iter().map(|p| p.cost()).collect();
        let after_costs: Vec<u64> = after.iter().map(|p| p.cost()).collect();
        assert_eq!(direct_costs, after_costs);
    }
}

/// PeeK prunes the five-city graph down to the through-route for a single
/// requested path.
#[test]
fn test_peek_prunes_cities() {
    let mut g = law_cities();
    PeekPreprocess::preprocess(&mut g, "Amsterdam", "Chicago", 1).unwrap();
    assert_eq!(g.node_count(), 3);
    assert!(g.find_node("Amsterdam").is_some());
    assert!(g.find_node("Dorchester").is_some());
    assert!(g.find_node("Chicago").is_some());
    assert!(g.find_node("Berlin").is_none());
    assert_eq!(g.edges.len(), 2);
}

/// PeeK rejects unknown endpoints and leaves the graph alone.
#[test]
fn test_peek_unknown_node() {
    let mut g = law_cities();
    let r = PeekPreprocess::preprocess(&mut g, "Atlantis", "Chicago", 1);
    assert_eq!(r, Err(SearchError::UnknownNode));
    assert_eq!(g.node_count(), 5);
}

/// Path equality ignores cost: identical node sequences with different
/// per-hop costs compare equal; different node sequences do not.
#[test]
fn test_path_equality_ignores_cost() {
    let p1 = Path {
        hops: vec![("Amsterdam".to_owned(), 0), ("Berlin".to_owned(), 57734)],
    };
    let p2 = Path {
        hops: vec![("Amsterdam".to_owned(), 0), ("Berlin".to_owned(), 1)],
    };
    let p3 = Path {
        hops: vec![("Amsterdam".to_owned(), 0), ("Dorchester".to_owned(), 57734)],
    };
    assert!(p1 == p2);
    assert!(p1 != p3);
    assert!(p2 != p3);
}

/// Requesting more paths than exist between two nodes returns fewer than
/// `k`, and is no error.
#[test]
fn test_k_beyond_available_paths() {
    let nodes = vec![("Solo".to_owned(), 0, 0)];
    let g = Graph::assemble(nodes, vec![]).unwrap();
    let r = WikipediaKSP.k_shortest_paths(&g, "Solo", "Solo", 5).unwrap();
    assert_eq!(r.len(), 1);
    assert_eq!(r[0].cost(), 0);
}

/// The enumeration ranges over walks: with a cycle-free two-node graph it
/// still reports back-and-forth walks once the direct path is exhausted.
#[test]
fn test_walk_enumeration_boundary() {
    let nodes = vec![("A".to_owned(), 0, 0), ("B".to_owned(), 1, 0)];
    let edges = vec![("A-B".to_owned(), "A".to_owned(), "B".to_owned(), 5)];
    let g = Graph::assemble(nodes, edges).unwrap();
    let r = WikipediaKSP.k_shortest_paths(&g, "A", "B", 3).unwrap();
    assert_eq!(r.len(), 3);
    assert_eq!(r[0].cost(), 5);
    assert_eq!(r[1].cost(), 15);
    assert_eq!(r[2].cost(), 25);
}

/// Results come back ordered by non-decreasing cost.
#[test]
fn test_results_sorted_by_cost() {
    let g = law_cities();
    let r = WikipediaKSP.k_shortest_paths(&g, "Amsterdam", "Edinburgh", 4).unwrap();
    assert!(r.len() >= 2);
    for w in r.windows(2) {
        assert!(w[0].cost() <= w[1].cost());
    }
}

/// Unknown endpoints are reported, disconnected endpoints are reported,
/// and both are recoverable errors.
#[test]
fn test_search_errors() {
    let nodes = vec![("A".to_owned(), 0, 0), ("B".to_owned(), 1, 0)];
    let g = Graph::assemble(nodes, vec![]).unwrap();
    assert_eq!(
        WikipediaKSP.k_shortest_paths(&g, "A", "X", 1),
        Err(SearchError::UnknownNode)
    );
    assert_eq!(sssp(&g, "X", "B"), Err(SearchError::UnknownNode));
    assert_eq!(sssp(&g, "A", "B"), Err(SearchError::Disconnected));
    let d = Dijkstra::shortest_all(&g, "A").unwrap();
    assert_eq!(d[g.find_node("B").unwrap()], INFINITY);
}

/// A cycle of zero-cost edges does not trap the path reconstruction: the
/// route is found and costed through the plateau.
#[test]
fn test_zero_cost_cycle() {
    let nodes = vec![
        ("A".to_owned(), 0, 0),
        ("B".to_owned(), 1, 0),
        ("C".to_owned(), 2, 0),
        ("D".to_owned(), 3, 0),
    ];
    let edges = vec![
        ("A-B".to_owned(), "A".to_owned(), "B".to_owned(), 5),
        ("B-C".to_owned(), "B".to_owned(), "C".to_owned(), 0),
        ("C-D".to_owned(), "C".to_owned(), "D".to_owned(), 0),
        ("D-B".to_owned(), "D".to_owned(), "B".to_owned(), 0),
    ];
    let g = Graph::assemble(nodes, edges).unwrap();
    let p = sssp(&g, "A", "C").unwrap();
    assert_eq!(p.cost(), 5);
    assert_eq!(p.hops[0].0, "A");
    assert_eq!(p.end().unwrap(), "C");
    let r = ksp::ksp::yen::YenKSP::<DijkstraSSSP>::k_shortest_paths(&g, "A", "D", 1).unwrap();
    assert_eq!(r.len(), 1);
    assert_eq!(r[0].cost(), 5);
}

/// A zero-cost edge is traversable and does not change the total.
#[test]
fn test_zero_cost_edge() {
    let nodes = vec![("A".to_owned(), 0, 0), ("B".to_owned(), 1, 0), ("C".to_owned(), 2, 0)];
    let edges = vec![
        ("A-B".to_owned(), "A".to_owned(), "B".to_owned(), 0),
        ("B-C".to_owned(), "B".to_owned(), "C".to_owned(), 7),
    ];
    let g = Graph::assemble(nodes, edges).unwrap();
    let p = sssp(&g, "A", "C").unwrap();
    assert_eq!(p.cost(), 7);
    assert_eq!(p.hops.len(), 3);
}
