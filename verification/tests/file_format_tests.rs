use rgdb::depth_profile::{decode_depth_profile, encode_depth_profile, DepthProfileError, DepthProfileSnapshot};
use rgdb::graph::{EdgeProps, Graph, NodeProps};
use rgdb::legacy_level::{LevelFileError as LegacyLevelFileError, LevelHeader};
use rgdb::level_file::{decode_level, encode_level, LevelFileError};
use rgdb::relation::RelationVocab;
use rgdb::reranker::{decode_reranker, encode_reranker, RerankerError, RerankerSnapshot};
use rgdb::rooms::RoomCollection;
use rgdb::transitions::{
    check_prior_shape, decode_transitions, encode_transitions, TransitionError, TransitionSnapshot,
};

fn bits(x: f32) -> u32 {
    x.to_bits()
}

#[test]
fn roundtrip_v2() {
    let e = (1u32, EdgeProps { attenuation_bits: bits(0.25), relation: 1, is_portal: false });
    let adj = vec![vec![e], vec![]];
    let mut graph = Graph::from_adjacency(2, adj, NodeProps::default()).unwrap();
    graph.set_room(0, 0).unwrap();
    graph.set_room(1, 1).unwrap();
    graph
        .set_node_props(0, NodeProps { reflection_bits: bits(0.5), refraction_index_bits: bits(2.0) })
        .unwrap();

    let rooms = RoomCollection::from_room_map(graph.room_map());
    let vocab = RelationVocab::new(vec!["isa".into(), "causes".into()], vec![bits(1.0), bits(0.3), bits(0.3), bits(1.0)])
        .unwrap();

    let bytes = encode_level(&graph, &rooms, &vocab);
    let (g2, r2, v2) = decode_level(&bytes).unwrap();

    assert_eq!(g2.num_nodes(), 2);
    assert_eq!(g2.num_edges(), 1);
    assert!((f32::from_bits(g2.node_props()[0].reflection_bits) - 0.5).abs() < 1e-6);
    assert_eq!(g2.edge_props()[0].relation, 1);
    assert_eq!(r2.num_rooms(), rooms.num_rooms());
    assert_eq!(v2.id_of("causes"), Some(1));
    assert!((f32::from_bits(v2.similarity_bits(0, 1)) - 0.3).abs() < 1e-6);
}

#[test]
fn level_file_layout_and_errors() {
    let graph = Graph::new(1).unwrap();
    let rooms = RoomCollection::from_room_map(graph.room_map());
    let vocab = RelationVocab::uniform(0);
    let bytes = encode_level(&graph, &rooms, &vocab);
    // header 16 + node 8 + row_ptr 8 + room map 4 + 4 + rooms 4 + 12 + vocab count 4
    assert_eq!(bytes.len(), 60);
    assert_eq!(&bytes[0..4], b"RGDB");
    assert_eq!(&bytes[4..8], &2u32.to_le_bytes());
    assert!(decode_level(&bytes).is_ok());
    assert!(matches!(decode_level(&bytes[..10]), Err(LevelFileError::StructureMismatch(_))));
    let mut bad = bytes.clone();
    bad[0] = b'X';
    assert!(matches!(decode_level(&bad), Err(LevelFileError::InvalidMagic)));
    let mut v3 = bytes.clone();
    v3[4] = 3;
    assert!(matches!(decode_level(&v3), Err(LevelFileError::UnsupportedVersion(3))));
    assert!(matches!(decode_level(&bytes[..40]), Err(LevelFileError::Io(_))));
    assert!(matches!(decode_level(&bytes[..20]), Err(LevelFileError::Io(_))));
}

#[test]
fn level_file_rejects_an_inconsistent_graph() {
    let adj = vec![vec![(1u32, EdgeProps::default())], vec![]];
    let graph = Graph::from_adjacency(2, adj, NodeProps::default()).unwrap();
    let rooms = RoomCollection::from_room_map(graph.room_map());
    let vocab = RelationVocab::uniform(1);
    let mut bytes = encode_level(&graph, &rooms, &vocab);
    // col_idx[0] sits after the header (16), two nodes (16) and three row pointers (12).
    assert_eq!(&bytes[44..48], &1u32.to_le_bytes());
    bytes[44] = 5;
    match decode_level(&bytes) {
        Err(LevelFileError::StructureMismatch(m)) => {
            assert_eq!(m, "Graph structure corrupted: Invalid node ID in edge: 5");
        },
        _ => panic!("expected a structure mismatch"),
    }
}

#[test]
fn level_file_error_texts() {
    match decode_level(&[0u8; 10]) {
        Err(LevelFileError::StructureMismatch(m)) => assert_eq!(m, "file too small"),
        _ => panic!("expected a structure mismatch"),
    }
}

#[test]
fn legacy_header_roundtrip_and_checks() {
    let h = LevelHeader::new(3, 4, 2, 16, 64, 112, 180, 200);
    let bytes = h.encode();
    assert_eq!(bytes.len(), 64);
    let back = LevelHeader::decode(&bytes).unwrap();
    assert_eq!(back.num_nodes, 3);
    assert_eq!(back.num_edges, 4);
    assert_eq!(back.num_rooms, 2);
    assert_eq!(back.num_angle_bins, 16);
    assert_eq!(back.pvs_section_offset, 200);
    assert!(matches!(LevelHeader::decode(&bytes[..30]), Err(LegacyLevelFileError::Io(_))));
    let mut bad = bytes.clone();
    bad[8..12].copy_from_slice(&200_000_000u32.to_le_bytes());
    match LevelHeader::decode(&bad) {
        Err(LegacyLevelFileError::StructureMismatch(m)) => {
            assert_eq!(m, "Invalid num_nodes: 200000000 (max: 100000000)");
        },
        _ => panic!("expected a structure mismatch"),
    }
    let mut bins = bytes.clone();
    bins[20] = 0;
    match LevelHeader::decode(&bins) {
        Err(LegacyLevelFileError::StructureMismatch(m)) => assert_eq!(m, "Invalid num_angle_bins: 0"),
        _ => panic!("expected a structure mismatch"),
    }
    let mut ver = bytes.clone();
    ver[4] = 2;
    assert!(matches!(LevelHeader::decode(&ver), Err(LegacyLevelFileError::UnsupportedVersion(2))));
    assert!(matches!(LevelHeader::decode(b"NOPE"), Err(LegacyLevelFileError::InvalidMagic)));
}

fn snapshot(names: Vec<String>, counts: Vec<f32>, prior: Vec<f32>) -> TransitionSnapshot {
    TransitionSnapshot {
        names,
        counts: counts.into_iter().map(bits).collect(),
        prior: prior.into_iter().map(bits).collect(),
        prior_strength_bits: bits(7.0),
        floor_bits: bits(0.02),
        decay_bits: bits(0.9),
        rebuild_every_n: 5,
    }
}

#[test]
fn transitions_save_load_roundtrip() {
    let s = snapshot(vec!["isa".into(), "causes".into()], vec![0.0, 3.0, 0.0, 0.0], vec![1.0, 0.3, 0.3, 1.0]);
    let bytes = encode_transitions(&s);
    let t = decode_transitions(&bytes).unwrap();
    assert_eq!(t.names, s.names);
    assert_eq!(t.counts, s.counts);
    assert_eq!(t.prior, s.prior);
    assert_eq!(f32::from_bits(t.prior_strength_bits), 7.0);
    assert_eq!(f32::from_bits(t.floor_bits), 0.02);
    assert_eq!(f32::from_bits(t.decay_bits), 0.9);
    assert_eq!(t.rebuild_every_n, 5);
}

#[test]
fn transitions_load_rejects_bad_magic() {
    assert!(decode_transitions(b"NOPEnothing").is_err());
}

#[test]
fn load_rejects_truncated_file() {
    assert!(decode_transitions(b"RGTR\x01\x00\x00\x00").is_err());
}

#[test]
fn load_rejects_absurd_relation_count() {
    let mut b = Vec::new();
    b.extend_from_slice(b"RGTR");
    b.extend_from_slice(&1u32.to_le_bytes());
    b.extend_from_slice(&0xFFFF_FFFFu32.to_le_bytes());
    assert!(matches!(decode_transitions(&b), Err(TransitionError::Corrupt(_))), "must reject before allocating");
}

#[test]
fn load_rejects_invalid_utf8_name() {
    let mut b = Vec::new();
    b.extend_from_slice(b"RGTR");
    b.extend_from_slice(&1u32.to_le_bytes());
    b.extend_from_slice(&1u32.to_le_bytes()); // n = 1
    b.extend_from_slice(&2u32.to_le_bytes()); // name length = 2
    b.extend_from_slice(&[0xff, 0xfe]); // not valid utf-8
    b.extend_from_slice(&0.0f32.to_le_bytes()); // counts (1x1)
    b.extend_from_slice(&1.0f32.to_le_bytes()); // prior  (1x1)
    b.extend_from_slice(&10.0f32.to_le_bytes());
    b.extend_from_slice(&0.05f32.to_le_bytes());
    b.extend_from_slice(&1.0f32.to_le_bytes());
    b.extend_from_slice(&64u32.to_le_bytes());
    assert!(matches!(decode_transitions(&b), Err(TransitionError::Corrupt(_))));
}

#[test]
fn empty_store_roundtrips() {
    let s = snapshot(Vec::new(), Vec::new(), Vec::new());
    let t = decode_transitions(&encode_transitions(&s)).unwrap();
    assert_eq!(t.names.len(), 0);
    assert!(t.counts.is_empty());
}

#[test]
fn bad_prior_shape_rejected() {
    assert!(check_prior_shape(2, Some(3)).is_err());
    assert!(check_prior_shape(2, Some(4)).is_ok());
    assert!(check_prior_shape(2, None).is_ok());
    match check_prior_shape(2, Some(3)) {
        Err(TransitionError::BadShape { n, expected, got }) => assert_eq!((n, expected, got), (2, 4, 3)),
        _ => panic!("expected a shape error"),
    }
}

#[test]
fn transitions_truncated_tail_is_io() {
    let s = snapshot(vec!["a".into()], vec![0.0], vec![1.0]);
    let bytes = encode_transitions(&s);
    assert!(matches!(decode_transitions(&bytes[..bytes.len() - 1]), Err(TransitionError::Io(_))));
    assert!(matches!(decode_transitions(&bytes[..2]), Err(TransitionError::Io(_))));
}

#[test]
fn depth_profile_save_load_roundtrip() {
    let sz = 16;
    let s = DepthProfileSnapshot {
        max_depth: 3,
        answer: (0..sz).map(|i| bits(i as f32)).collect(),
        background: vec![bits(1.0); sz],
        prior_strength_bits: bits(10.0),
        floor_bits: bits(1e-3),
        rebuild_every_n: 64,
    };
    let t = decode_depth_profile(&encode_depth_profile(&s)).unwrap();
    assert_eq!(t.max_depth, 3);
    assert_eq!(t.answer, s.answer);
    assert_eq!(t.background, s.background);
    assert_eq!(t.prior_strength_bits, s.prior_strength_bits);
    assert_eq!(t.floor_bits, s.floor_bits);
    assert_eq!(t.rebuild_every_n, 64);
}

#[test]
fn depth_profile_load_rejects_bad_magic() {
    assert!(decode_depth_profile(b"NOPEnothing").is_err());
    let mut b = Vec::new();
    b.extend_from_slice(b"RGDP");
    b.extend_from_slice(&1u32.to_le_bytes());
    b.extend_from_slice(&5000u32.to_le_bytes());
    assert!(matches!(decode_depth_profile(&b), Err(DepthProfileError::Corrupt(_))));
}

#[test]
fn reranker_save_load_roundtrip() {
    let s = RerankerSnapshot {
        n_relations: 1,
        max_depth: 2,
        bias_bits: bits(0.25),
        w: vec![bits(0.5), bits(-1.0), bits(0.0), bits(2.0), bits(0.1), bits(3.0)],
        learning_rate_bits: bits(0.5),
        top_k: 3,
        l2_bits: bits(0.0),
    };
    let t = decode_reranker(&encode_reranker(&s)).unwrap();
    assert_eq!(t.n_relations, 1);
    assert_eq!(t.max_depth, 2);
    assert_eq!(t.bias_bits, s.bias_bits);
    assert_eq!(t.w, s.w);
    assert_eq!(t.learning_rate_bits, s.learning_rate_bits);
    assert_eq!(t.top_k, 3);
    assert_eq!(t.l2_bits, s.l2_bits);
    assert!(matches!(decode_reranker(b"RGRK"), Err(RerankerError::Io(_))));
    assert!(matches!(decode_reranker(b"XGRK\x01\x00\x00\x00"), Err(RerankerError::Corrupt(_))));
}

#[test]
fn level_names_decode_lossily() {
    let graph = Graph::new(1).unwrap();
    let rooms = RoomCollection::from_room_map(graph.room_map());
    let vocab = RelationVocab::with_names_uniform(vec!["ab".to_string()]);
    let mut bytes = encode_level(&graph, &rooms, &vocab);
    let at = bytes.windows(2).position(|w| w == b"ab").unwrap();
    bytes[at + 1] = 0xFF;
    let (_, _, v) = decode_level(&bytes).unwrap();
    assert_eq!(v.names()[0], "a\u{FFFD}");
    assert_eq!(v.id_of("ab"), None);
}
