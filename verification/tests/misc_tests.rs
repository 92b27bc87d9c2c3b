use rgdb::cuda::{CudaError, CudaWrapperError};
use rgdb::engine::{
    check_feedback, check_relation_coverage, count_event, rebuild_due, resolve_weights, FeedbackError, WeightsSource,
};
use rgdb::error::{node_id_to_usize, usize_to_node_id, GraphError};
use rgdb::graph::{EdgeProps, Graph, NodeProps};
use rgdb::llm_integration::QueryParser;
use rgdb::reasoning::{find_reasoning_path, path_length};
use rgdb::transitions::TransitionError;
use std::collections::HashMap;

#[test]
fn cuda_status_mapping() {
    assert!(matches!(CudaError::from_wrapper_error(CudaWrapperError::DeviceNotFound), CudaError::NotAvailable));
    assert!(matches!(CudaError::from_wrapper_error(CudaWrapperError::ModuleLoad), CudaError::PtxCompilation(_)));
    assert!(matches!(CudaError::from_wrapper_error(CudaWrapperError::StreamSync), CudaError::Runtime(_)));
    assert_eq!(CudaWrapperError::Unknown.code(), 99);
    assert_eq!(CudaWrapperError::from_code(7), Some(CudaWrapperError::KernelLaunch));
    assert_eq!(CudaWrapperError::from_code(42), None);
    assert_eq!(CudaError::NotAvailable.to_message(), "CUDA not available (no GPU or CUDA toolkit not found)");
}

#[test]
fn feedback_checks_in_order() {
    assert!(matches!(check_feedback(9, false, false, 2, 3, true), Err(FeedbackError::UnknownQuery(9))));
    assert!(matches!(check_feedback(9, true, true, 2, 3, true), Err(FeedbackError::UnknownQuery(9))));
    assert!(matches!(check_feedback(9, true, false, 99, 3, true), Err(FeedbackError::InvalidTarget(99))));
    assert!(matches!(check_feedback(9, true, false, 0, 3, false), Err(FeedbackError::TargetUnreachable(0))));
    assert!(check_feedback(9, true, false, 2, 3, true).is_ok());
    assert!(rebuild_due(2, 2));
    assert!(!rebuild_due(0, 100));
    assert!(!rebuild_due(3, 2));
    assert_eq!(count_event(4), 5);
    assert_eq!(count_event(u32::MAX), u32::MAX);
    let e: FeedbackError = TransitionError::Corrupt("x".to_string()).into();
    assert_eq!(e.to_message(), "corrupt snapshot: x");
}

#[test]
fn id_conversions() {
    assert_eq!(node_id_to_usize(7).unwrap(), 7);
    assert_eq!(usize_to_node_id(7).unwrap(), 7);
    assert!(usize_to_node_id(u32::MAX as usize + 1).is_err());
    assert_eq!(GraphError::IntegerOverflow.to_message(), "Integer overflow in calculation");
}

#[test]
fn query_parser_finds_node_keywords() {
    let p = QueryParser::new();
    assert_eq!(p.parse_query("Start here"), Some((0, 0)));
    assert_eq!(p.parse_query("from the BEGINNING"), Some((0, 0)));
    assert_eq!(p.parse_query("somewhere else"), None);
    assert_eq!(p.parse_lowered("Start"), None);
}

#[test]
fn reasoning_paths() {
    // 0 -> 1 -> 2 -> 3, and 0 -> 3 directly.
    let e = |to: u32| (to, EdgeProps::default());
    let adj = vec![vec![e(1), e(3)], vec![e(2)], vec![e(3)], vec![]];
    let g = Graph::from_adjacency(4, adj, NodeProps::default()).unwrap();
    assert_eq!(find_reasoning_path(&g, 0, 3, 4), Some(vec![0, 3]));
    assert_eq!(find_reasoning_path(&g, 0, 2, 4), Some(vec![0, 1, 2]));
    assert_eq!(find_reasoning_path(&g, 0, 2, 1), None);
    assert_eq!(find_reasoning_path(&g, 3, 0, 4), None);
    assert_eq!(find_reasoning_path(&g, 2, 2, 0), Some(vec![2]));
    // The shortest path is found even when a longer one is explored first.
    assert_eq!(find_reasoning_path(&g, 0, 3, 1), Some(vec![0, 3]));
    // A source outside the graph that equals the target is its own path.
    assert_eq!(find_reasoning_path(&g, 9, 9, 4), Some(vec![9]));
    let mut parents = HashMap::new();
    parents.insert(2u32, 1u32);
    parents.insert(1u32, 0u32);
    assert_eq!(path_length(&parents, 0, 2), 2);
    assert_eq!(path_length(&parents, 0, 0), 0);
    assert_eq!(path_length(&parents, 5, 2), 2);
}

#[test]
fn relation_coverage_names_the_largest_relation() {
    let e = |dst: u32, rel: u16| (dst, EdgeProps { attenuation_bits: 0, relation: rel, is_portal: false });
    let adj = vec![vec![e(1, 3)], vec![e(2, 0)], vec![]];
    let g = Graph::from_adjacency(3, adj, NodeProps::default()).unwrap();
    match check_relation_coverage(&g, 3) {
        Err(TransitionError::RelationCoverage { store_len, graph_max }) => {
            assert_eq!(store_len, 3);
            assert_eq!(graph_max, 3);
        }
        _ => panic!("expected a coverage error"),
    }
    assert!(check_relation_coverage(&g, 4).is_ok());
    let edgeless = Graph::from_adjacency(2, vec![vec![], vec![]], NodeProps::default()).unwrap();
    assert!(check_relation_coverage(&edgeless, 0).is_ok());
}

#[test]
fn error_messages_render_their_templates() {
    assert_eq!(GraphError::InvalidNodeId(5, 3).to_message(), "Invalid node ID: 5 (graph has 3 nodes)");
    assert_eq!(GraphError::InvalidRoomId(0).to_message(), "Invalid room ID: 0");
    assert_eq!(
        GraphError::AdjacencyLengthMismatch(4, 12).to_message(),
        "Adjacency list length mismatch: expected 4, got 12"
    );
    assert_eq!(
        TransitionError::BadShape { n: 2, expected: 4, got: 3 }.to_message(),
        "matrix must be 4 entries (2x2), got 3"
    );
    assert_eq!(
        TransitionError::RelationCoverage { store_len: 2, graph_max: 5 }.to_message(),
        "snapshot covers 2 relations but the graph uses relation id 5"
    );
    let io = TransitionError::Io(std::io::Error::new(std::io::ErrorKind::Other, "disk gone"));
    assert_eq!(io.to_message(), "io error: disk gone");
    assert_eq!(FeedbackError::UnknownQuery(18_446_744_073_709_551_615).to_message(), "unknown or expired query id 18446744073709551615");
    assert_eq!(FeedbackError::InvalidTarget(10).to_message(), "target node 10 is out of bounds");
    assert_eq!(
        FeedbackError::TargetUnreachable(1).to_message(),
        "target node 1 is unreachable from the query's seeds within max_depth"
    );
}

#[test]
fn depth_weights_resolution_order() {
    assert_eq!(resolve_weights(true, Some(5), 5, 4), WeightsSource::Caller);
    assert_eq!(resolve_weights(false, Some(5), 5, 4), WeightsSource::Learned);
    assert_eq!(resolve_weights(false, Some(3), 5, 4), WeightsSource::Uniform);
    assert_eq!(resolve_weights(false, None, 5, 4), WeightsSource::EngineDefault);
    assert_eq!(resolve_weights(false, None, 3, 4), WeightsSource::Uniform);
    assert_eq!(resolve_weights(false, None, 0, usize::MAX), WeightsSource::Uniform);
}
