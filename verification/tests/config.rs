//! Parsing of configuration tokens and pipeline descriptions, rendering,
//! and graph assembly from raw parts.

use ksp::graph::{Graph, GraphBuildError, GraphFormat, complete_bidirectional};
use ksp::ksp::Algorithm;
use ksp::numfmt::{cost_string, dec_string};
use ksp::path::Path;
use ksp::pipeline::{Pipeline, PipelineParseError};
use ksp::sssp::Sssp;
use ksp::steps::{Distance, Ksp, Transformer};
use ksp::trans::Step;
use ksp::xml::demands_to_tests;
use ksp::INFINITY;

#[test]
fn test_token_parsing() {
    assert_eq!(Algorithm::from_str("wikipedia").unwrap(), Algorithm::Wikipedia);
    assert_eq!(Algorithm::from_str("yen").unwrap(), Algorithm::Yen);
    assert!(Algorithm::from_str("dijkstra").is_err());
    assert_eq!(Sssp::from_str("dijkstra").unwrap(), Sssp::Dijkstra);
    assert!(Sssp::from_str("yen").is_err());
    assert_eq!(Step::from_str("peek").unwrap(), Step::Peek);
    assert!(Step::from_str("Peek").is_err());
    assert_eq!(GraphFormat::from_str("json").unwrap(), GraphFormat::Json);
    assert_eq!(GraphFormat::from_str("sndlib_xml").unwrap(), GraphFormat::SNDLibXml);
    assert!(GraphFormat::from_str("yaml").is_err());
    assert_eq!(Distance::from_str("dijkstra").unwrap(), Distance::Dijkstra);
    assert_eq!(Ksp::from_str("wikipedia").unwrap(), Ksp::Wikipedia);
    assert_eq!(Ksp::from_str("yen<dijkstra>").unwrap(), Ksp::Yen(Sssp::Dijkstra));
    assert_eq!(
        Transformer::from_str("peek<dijkstra>").unwrap(),
        Transformer::PeeK(Distance::Dijkstra)
    );
}

#[test]
fn test_enum_overviews() {
    assert_eq!(Algorithm::all(), vec![Algorithm::Wikipedia, Algorithm::Yen]);
    assert_eq!(Sssp::all(), vec![Sssp::Dijkstra]);
    assert_eq!(Step::all(), vec![Step::Peek]);
    assert_eq!(GraphFormat::all(), vec![GraphFormat::Json, GraphFormat::SNDLibXml]);
    assert_eq!(Distance::all(), vec![Distance::Dijkstra]);
}

#[test]
fn test_pipeline_parsing() {
    assert!(Pipeline::from_str("wikipedia").is_ok());
    assert!(Pipeline::from_str("yen<dijkstra>").is_ok());
    assert!(Pipeline::from_str("peek->yen<dijkstra>").is_ok());
    assert!(Pipeline::from_str("peek->peek->wikipedia").is_ok());
    assert!(matches!(
        Pipeline::from_str("yen"),
        Err(PipelineParseError::MissingSSSP { alg: Algorithm::Yen })
    ));
    assert!(matches!(
        Pipeline::from_str("yen<dijkstra"),
        Err(PipelineParseError::MissingClosingDelim { .. })
    ));
    assert!(matches!(
        Pipeline::from_str("dance->wikipedia"),
        Err(PipelineParseError::IllegalStep { .. })
    ));
    assert!(matches!(
        Pipeline::from_str("peek->dance"),
        Err(PipelineParseError::IllegalAlgorithm { .. })
    ));
    assert!(matches!(
        Pipeline::from_str("yen<bfs>"),
        Err(PipelineParseError::IllegalSssp { .. })
    ));
}

#[test]
fn test_pipeline_runs() {
    let nodes = vec![
        ("A".to_owned(), 0, 0),
        ("B".to_owned(), 1, 0),
        ("C".to_owned(), 2, 0),
    ];
    let edges = vec![
        ("A-B".to_owned(), "A".to_owned(), "B".to_owned(), 3),
        ("B-C".to_owned(), "B".to_owned(), "C".to_owned(), 4),
        ("A-C".to_owned(), "A".to_owned(), "C".to_owned(), 9),
    ];
    let g = Graph::assemble(nodes, edges).unwrap();

    let p = Pipeline::from_str("peek->yen<dijkstra>").unwrap();
    let mut g1 = Graph { nodes: g.nodes.clone(), edges: g.edges.clone() };
    let (paths, profile) = p.k_shortest_paths_profiled(&mut g1, "A", "C", 2).unwrap();
    assert!(!paths.is_empty());
    assert_eq!(paths[0].cost(), 7);
    assert_eq!(profile.prep.len(), 1);
    assert_eq!(profile.sssp.len(), 4);

    let p = Pipeline::from_str("wikipedia").unwrap();
    let mut g2 = Graph { nodes: g.nodes.clone(), edges: g.edges.clone() };
    let (paths, profile) = p.k_shortest_paths_profiled(&mut g2, "A", "C", 2).unwrap();
    assert_eq!(paths.len(), 2);
    assert_eq!(paths[0].cost(), 7);
    assert_eq!(paths[1].cost(), 9);
    assert!(profile.sssp.is_empty());
}

#[test]
fn test_graph_assembly_errors() {
    let dup = vec![("A".to_owned(), 0, 0), ("A".to_owned(), 1, 0)];
    assert!(matches!(
        Graph::assemble(dup, vec![]),
        Err(GraphBuildError::DuplicateNode)
    ));
    let nodes = vec![("A".to_owned(), 0, 0)];
    let dangling = vec![("A-X".to_owned(), "A".to_owned(), "X".to_owned(), 1)];
    assert!(matches!(
        Graph::assemble(nodes, dangling),
        Err(GraphBuildError::UnknownEndpoint)
    ));
    let nodes = vec![("A".to_owned(), 0, 0), ("B".to_owned(), 1, 0)];
    let infinite = vec![("A-B".to_owned(), "A".to_owned(), "B".to_owned(), INFINITY)];
    assert!(matches!(
        Graph::assemble(nodes, infinite),
        Err(GraphBuildError::CostTooLarge)
    ));
}

#[test]
fn test_bidirectional_completion() {
    let edges = vec![
        ("A-B".to_owned(), "A".to_owned(), "B".to_owned(), 3),
        ("B-A".to_owned(), "B".to_owned(), "A".to_owned(), 3),
        ("B-C".to_owned(), "B".to_owned(), "C".to_owned(), 4),
    ];
    let full = complete_bidirectional(edges);
    assert_eq!(full.len(), 4);
    assert_eq!(full[3].0, "B-C-REV");
    assert_eq!(full[3].1, "C");
    assert_eq!(full[3].2, "B");
    assert_eq!(full[3].3, 4);
}

#[test]
fn test_number_rendering() {
    assert_eq!(dec_string(0), "0");
    assert_eq!(dec_string(7), "7");
    assert_eq!(dec_string(57734), "57734");
    assert_eq!(cost_string(INFINITY), "inf");
    assert_eq!(cost_string(42), "42");
}

#[test]
fn test_path_rendering() {
    let p = Path {
        hops: vec![
            ("Amsterdam".to_owned(), 0),
            ("Dorchester".to_owned(), 54086),
            ("Chicago".to_owned(), 679001),
        ],
    };
    assert_eq!(p.describe(), "Amsterdam -54086-> Dorchester -679001-> Chicago");
}

#[test]
fn test_demand_conversion() {
    let demands = vec![("d1".to_owned(), "A".to_owned(), "B".to_owned())];
    let cases = demands_to_tests(demands);
    assert_eq!(cases.len(), 1);
    assert_eq!(cases[0].id, "d1");
    assert_eq!(cases[0].source, "A");
    assert_eq!(cases[0].target, "B");
    assert_eq!(cases[0].k, 1);
}

#[test]
fn test_error_descriptions() {
    let e = Pipeline::from_str("peek->dance").unwrap_err();
    assert_eq!(e.describe(), "Failed to parse 'dance' as an algorithm");
    let e = Algorithm::from_str("dance").unwrap_err();
    assert_eq!(e.describe(), "Unknown KSP algorithm 'dance'");
    let e = Sssp::from_str("dance").unwrap_err();
    assert_eq!(e.describe(), "Unknown SSSP algorithm 'dance'");
    let e = Step::from_str("dance").unwrap_err();
    assert_eq!(e.describe(), "Unknown preprocess step 'dance'");
    let e = GraphFormat::from_str("dance").unwrap_err();
    assert_eq!(e.describe(), "Unknown graph format identifier 'dance'");
}

#[test]
fn test_pipeline_rendering() {
    let p = Pipeline::from_str("peek->yen<dijkstra>").unwrap();
    assert_eq!(p.describe(), "Peek->Yen<Dijkstra>");
    let p = Pipeline::from_str("wikipedia").unwrap();
    assert_eq!(p.describe(), "Wikipedia");
    let p = Pipeline::from_str("peek->peek->wikipedia").unwrap();
    assert_eq!(p.describe(), "Peek->Peek->Wikipedia");
}

#[test]
fn test_empty_graph() {
    let g = Graph::assemble(vec![], vec![]).unwrap();
    assert_eq!(g.node_count(), 0);
    assert!(matches!(
        ksp::ksp::wikipedia::WikipediaKSP.k_shortest_paths(&g, "A", "B", 1),
        Err(ksp::graph::SearchError::UnknownNode)
    ));
}
