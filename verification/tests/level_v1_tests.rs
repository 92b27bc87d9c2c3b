use rgdb::error::GraphError;
use rgdb::legacy_level::LevelFileError;
use rgdb::level_v1::{decode_level_v1, encode_level_v1, EdgeRecord, LevelGraph, NodeRecord};
use rgdb::pvs::PVS;
use rgdb::rooms::RoomCollection;

fn node(luminance: f32) -> NodeRecord {
    NodeRecord {
        luminance_bits: luminance.to_bits(),
        reflection_bits: 0.85f32.to_bits(),
        refraction_index_bits: 1.0f32.to_bits(),
        default_angle_bin: 0,
    }
}

fn edge(angle_bin: u8, is_portal: bool) -> EdgeRecord {
    EdgeRecord { attenuation_bits: 0.1f32.to_bits(), angle_bin, is_portal }
}

/// Three nodes 0 -> 1 -> 2; nodes 0 and 1 in room 0, node 2 in room 1.
fn sample() -> (LevelGraph, RoomCollection) {
    let graph = LevelGraph::from_csr(
        3,
        vec![0, 1, 2, 2],
        vec![1, 2],
        vec![node(1.0), node(0.0), node(0.0)],
        vec![edge(3, false), edge(7, true)],
        vec![0, 0, 1],
    )
    .unwrap();
    let rooms = RoomCollection::from_room_map(graph.room_map());
    (graph, rooms)
}

fn mismatch<T>(r: Result<T, LevelFileError>) -> String {
    match r {
        Err(LevelFileError::StructureMismatch(m)) => m,
        _ => panic!("expected a structure mismatch"),
    }
}

fn set_u64(b: &mut [u8], pos: usize, x: u64) {
    b[pos..pos + 8].copy_from_slice(&x.to_le_bytes());
}

#[test]
fn test_write_read_roundtrip() {
    let (graph, rooms) = sample();
    let pvs = PVS::new(2, 16);
    let bytes = encode_level_v1(&graph, &rooms, &pvs);
    let (read_graph, read_rooms, read_pvs) = decode_level_v1(&bytes).unwrap();
    assert_eq!(read_graph.num_nodes(), graph.num_nodes());
    assert_eq!(read_graph.node_props().len(), graph.node_props().len());
    assert_eq!(read_rooms.num_rooms(), rooms.num_rooms());
    assert_eq!(read_graph.row_ptr(), graph.row_ptr());
    assert_eq!(read_graph.col_idx(), graph.col_idx());
    assert_eq!(read_graph.node_props(), graph.node_props());
    assert_eq!(read_graph.edge_props(), graph.edge_props());
    assert_eq!(read_graph.room_map(), graph.room_map());
    assert_eq!(read_rooms.room_index, vec![0, 1]);
    // The PVS comes back empty with 2 rooms and 16 bins.
    assert_eq!(read_pvs.is_visible(1, 15, 0).unwrap(), false);
    assert!(read_pvs.is_visible(2, 0, 0).is_err());
}

#[test]
fn v1_layout_offsets() {
    let (graph, rooms) = sample();
    let bytes = encode_level_v1(&graph, &rooms, &PVS::new(2, 16));
    // Header 64, nodes 3 * 16, edges 4 * 4 + 2 * 4 + 2 * 8 + 4 + 3 * 4,
    // rooms 4 + 2 * 12, PVS 4.
    assert_eq!(bytes.len(), 64 + 48 + 56 + 28 + 4);
    assert_eq!(&bytes[0..4], b"RGDB");
    assert_eq!(u64::from_le_bytes(bytes[24..32].try_into().unwrap()), 64);
    assert_eq!(u64::from_le_bytes(bytes[32..40].try_into().unwrap()), 112);
    assert_eq!(u64::from_le_bytes(bytes[40..48].try_into().unwrap()), 168);
    assert_eq!(u64::from_le_bytes(bytes[48..56].try_into().unwrap()), 196);
    assert_eq!(bytes[20], 16);
}

#[test]
fn v1_reader_errors() {
    let (graph, rooms) = sample();
    let good = encode_level_v1(&graph, &rooms, &PVS::new(2, 16));

    assert_eq!(mismatch(decode_level_v1(&good[..63])), "File too small to contain header");

    let mut b = good.clone();
    b[0] = b'X';
    assert!(matches!(decode_level_v1(&b), Err(LevelFileError::InvalidMagic)));

    let mut b = good.clone();
    b[4] = 2;
    assert!(matches!(decode_level_v1(&b), Err(LevelFileError::UnsupportedVersion(2))));

    // An offset past the end of the file.
    let mut b = good.clone();
    set_u64(&mut b, 48, 10_000);
    assert_eq!(mismatch(decode_level_v1(&b)), "Section offsets exceed file size");

    // Offsets out of order.
    let mut b = good.clone();
    set_u64(&mut b, 32, 60);
    assert_eq!(mismatch(decode_level_v1(&b)), "Section offsets not in ascending order");

    // A room count above its maximum.
    let mut b = good.clone();
    b[16..20].copy_from_slice(&10_000_001u32.to_le_bytes());
    assert_eq!(mismatch(decode_level_v1(&b)), "Invalid num_rooms: 10000001 (max: 10000000)");

    // A node section too short for three records.
    let mut b = good.clone();
    set_u64(&mut b, 24, 80);
    assert!(matches!(decode_level_v1(&b), Err(LevelFileError::Io(_))));

    // An edge section too short for its room map.
    let mut b = good.clone();
    set_u64(&mut b, 40, 160);
    assert!(matches!(decode_level_v1(&b), Err(LevelFileError::Io(_))));

    // A column index naming no node.
    let mut b = good.clone();
    b[112 + 16] = 9;
    assert_eq!(
        mismatch(decode_level_v1(&b)),
        "Graph reconstruction failed: Graph structure corrupted: Invalid node ID in edge: 9"
    );

    // A rooms section claiming more rooms than the file holds.
    let mut b = good.clone();
    b[168] = 9;
    assert!(matches!(decode_level_v1(&b), Err(LevelFileError::Io(_))));
}

#[test]
fn v1_graph_construction_errors() {
    assert!(matches!(
        LevelGraph::from_csr(0, vec![0], vec![], vec![], vec![], vec![]),
        Err(GraphError::InvalidSize(_))
    ));
    assert!(matches!(
        LevelGraph::from_csr(1, vec![0, 1], vec![0], vec![node(0.0)], vec![edge(0, false)], vec![]),
        Err(GraphError::CorruptedStructure(_))
    ));
    assert!(matches!(
        LevelGraph::from_csr(1, vec![0, 1], vec![1], vec![node(0.0)], vec![edge(0, false)], vec![0]),
        Err(GraphError::CorruptedStructure(_))
    ));
    assert!(LevelGraph::from_csr(1, vec![0, 1], vec![0], vec![node(0.0)], vec![edge(0, false)], vec![0]).is_ok());
}
