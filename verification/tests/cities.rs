//! The five-city example graph: distances and shortest paths.

use ksp::dist::Distancing;
use ksp::dist::dijkstra::Dijkstra;
use ksp::graph::Graph;
use ksp::ksp::MultiRouting;
use ksp::ksp::wikipedia::WikipediaKSP;
use ksp::ksp::yen::{Yen, YenKSP};
use ksp::path::Path;
use ksp::sssp::SingleShortestPath;
use ksp::sssp::dijkstra::DijkstraSSSP;

/// Costs are fixed-point with two decimal places: 577.34 becomes 57734.
fn cities() -> Graph {
    let nodes = vec![
        ("Amsterdam".to_owned(), 5236, 490),
        ("Berlin".to_owned(), 5252, 1340),
        ("Chicago".to_owned(), 4187, 8762),
        ("Dorchester".to_owned(), 5071, 244),
        ("Edinburgh".to_owned(), 5595, 318),
    ];
    let edges = vec![
        (
            "Amsterdam-Berlin".to_owned(),
            "Amsterdam".to_owned(),
            "Berlin".to_owned(),
            57734,
        ),
        (
            "Amsterdam-Dorchester".to_owned(),
            "Amsterdam".to_owned(),
            "Dorchester".to_owned(),
            54086,
        ),
        (
            "Amsterdam-Edinburgh".to_owned(),
            "Amsterdam".to_owned(),
            "Edinburgh".to_owned(),
            66068,
        ),
        (
            "Dorchester-Edinburgh".to_owned(),
            "Dorchester".to_owned(),
            "Edinburgh".to_owned(),
            58923,
        ),
        (
            "Chicago-Dorchester".to_owned(),
            "Chicago".to_owned(),
            "Dorchester".to_owned(),
            624915,
        ),
    ];
    Graph::assemble(nodes, edges).unwrap()
}

fn path_of(hops: &[(&str, u64)]) -> Path {
    Path { hops: hops.iter().map(|(n, c)| ((*n).to_owned(), *c)).collect() }
}

fn dist_of(g: &Graph, dist: &[u64], name: &str) -> u64 {
    dist[g.find_node(name).unwrap()]
}

#[test]
fn test_dijkstra_dist() {
    // Run it quite some times to catch iteration-order problems
    for _ in 0..10 {
        let g = cities();
        let d = Dijkstra::shortest_all(&g, "Amsterdam").unwrap();
        assert_eq!(dist_of(&g, &d, "Amsterdam"), 0);
        assert_eq!(dist_of(&g, &d, "Berlin"), 57734);
        assert_eq!(dist_of(&g, &d, "Chicago"), 54086 + 624915);
        assert_eq!(dist_of(&g, &d, "Dorchester"), 54086);
        assert_eq!(dist_of(&g, &d, "Edinburgh"), 66068);

        let d = Dijkstra::shortest_all(&g, "Berlin").unwrap();
        assert_eq!(dist_of(&g, &d, "Amsterdam"), 57734);
        assert_eq!(dist_of(&g, &d, "Berlin"), 0);
        assert_eq!(dist_of(&g, &d, "Chicago"), 57734 + 54086 + 624915);
        assert_eq!(dist_of(&g, &d, "Dorchester"), 57734 + 54086);
        assert_eq!(dist_of(&g, &d, "Edinburgh"), 57734 + 66068);

        let d = Dijkstra::shortest_all(&g, "Chicago").unwrap();
        assert_eq!(dist_of(&g, &d, "Amsterdam"), 624915 + 54086);
        assert_eq!(dist_of(&g, &d, "Berlin"), 624915 + 54086 + 57734);
        assert_eq!(dist_of(&g, &d, "Chicago"), 0);
        assert_eq!(dist_of(&g, &d, "Dorchester"), 624915);
        assert_eq!(dist_of(&g, &d, "Edinburgh"), 624915 + 58923);

        let d = Dijkstra::shortest_all(&g, "Dorchester").unwrap();
        assert_eq!(dist_of(&g, &d, "Amsterdam"), 54086);
        assert_eq!(dist_of(&g, &d, "Berlin"), 54086 + 57734);
        assert_eq!(dist_of(&g, &d, "Chicago"), 624915);
        assert_eq!(dist_of(&g, &d, "Dorchester"), 0);
        assert_eq!(dist_of(&g, &d, "Edinburgh"), 58923);

        let d = Dijkstra::shortest_all(&g, "Edinburgh").unwrap();
        assert_eq!(dist_of(&g, &d, "Amsterdam"), 66068);
        assert_eq!(dist_of(&g, &d, "Berlin"), 66068 + 57734);
        assert_eq!(dist_of(&g, &d, "Chicago"), 58923 + 624915);
        assert_eq!(dist_of(&g, &d, "Dorchester"), 58923);
        assert_eq!(dist_of(&g, &d, "Edinburgh"), 0);
    }
}

#[test]
fn dijkstra_test_sssp() {
    for _ in 0..10 {
        let g = cities();
        let p = DijkstraSSSP.shortest(&g, "Amsterdam", "Berlin").unwrap();
        assert!(p == path_of(&[("Amsterdam", 0), ("Berlin", 57734)]));
        let p = DijkstraSSSP.shortest(&g, "Amsterdam", "Dorchester").unwrap();
        assert!(p == path_of(&[("Amsterdam", 0), ("Dorchester", 54086)]));
        let p = DijkstraSSSP.shortest(&g, "Amsterdam", "Chicago").unwrap();
        assert!(
            p == path_of(&[("Amsterdam", 0), ("Dorchester", 54086), ("Chicago", 54086 + 624915)])
        );
        assert_eq!(p.cost(), 54086 + 624915);
        let p = DijkstraSSSP.shortest(&g, "Berlin", "Chicago").unwrap();
        assert!(
            p == path_of(&[
                ("Berlin", 0),
                ("Amsterdam", 57734),
                ("Dorchester", 57734 + 54086),
                ("Chicago", 57734 + 54086 + 624915),
            ])
        );
    }
}

#[test]
fn yen_test_sssp() {
    // The five-city graph assembles into a well-formed value.
    let g = cities();
    assert_eq!(g.node_count(), 5);
}

#[test]
fn test_wikipedia_ksp_cities() {
    for _ in 0..10 {
        let g = cities();
        let r = WikipediaKSP.k_shortest_paths(&g, "Amsterdam", "Berlin", 1).unwrap();
        assert!(r == vec![path_of(&[("Amsterdam", 0), ("Berlin", 57734)])]);
        let r = WikipediaKSP.k_shortest_paths(&g, "Amsterdam", "Dorchester", 1).unwrap();
        assert!(r == vec![path_of(&[("Amsterdam", 0), ("Dorchester", 54086)])]);
        let r = WikipediaKSP.k_shortest_paths(&g, "Amsterdam", "Chicago", 1).unwrap();
        assert!(
            r == vec![path_of(&[("Amsterdam", 0), ("Dorchester", 54086), ("Chicago", 679001)])]
        );
        let r = WikipediaKSP.k_shortest_paths(&g, "Berlin", "Chicago", 1).unwrap();
        assert!(
            r == vec![path_of(&[
                ("Berlin", 0),
                ("Amsterdam", 57734),
                ("Dorchester", 111820),
                ("Chicago", 736735),
            ])]
        );
    }
}

#[test]
fn wikipedia_test_wikipedia_ksp_cities() {
    let g = cities();
    let r = WikipediaKSP.k_shortest_paths(&g, "Amsterdam", "Chicago", 1).unwrap();
    assert_eq!(r.len(), 1);
    assert_eq!(r[0].cost(), 54086 + 624915);
    assert_eq!(r[0].end().unwrap().as_str(), "Chicago");
}

#[test]
fn test_yen_ksp() {
    for _ in 0..10 {
        let g = cities();
        let r = Yen::<DijkstraSSSP>::k_shortest(&g, "Amsterdam", "Berlin", 1).unwrap();
        assert!(r == vec![path_of(&[("Amsterdam", 0), ("Berlin", 57734)])]);
        let r = Yen::<DijkstraSSSP>::k_shortest(&g, "Amsterdam", "Dorchester", 1).unwrap();
        assert!(r == vec![path_of(&[("Amsterdam", 0), ("Dorchester", 54086)])]);
        let r = Yen::<DijkstraSSSP>::k_shortest(&g, "Amsterdam", "Chicago", 1).unwrap();
        assert!(
            r == vec![path_of(&[("Amsterdam", 0), ("Dorchester", 54086), ("Chicago", 679001)])]
        );
        let r = Yen::<DijkstraSSSP>::k_shortest(&g, "Berlin", "Chicago", 1).unwrap();
        assert!(
            r == vec![path_of(&[
                ("Berlin", 0),
                ("Amsterdam", 57734),
                ("Dorchester", 111820),
                ("Chicago", 736735),
            ])]
        );
    }
}

#[test]
fn yen_test_yen_ksp() {
    let g = cities();
    let r = YenKSP::<DijkstraSSSP>::k_shortest_paths(&g, "Amsterdam", "Chicago", 1).unwrap();
    assert_eq!(r.len(), 1);
    assert_eq!(r[0].cost(), 54086 + 624915);
}
