use rgdb::graph::{EdgeProps, Graph, NodeProps};
use rgdb::pvs::{build_pvs, find_representative_node, precompute_representative_nodes, PVSError, PVS};
use rgdb::rooms::{Room, RoomCollection};

#[test]
fn test_pvs_basic() {
    let mut pvs = PVS::new(3, 16);
    pvs.mark_visible(0, 2, 1).unwrap();
    pvs.mark_visible(0, 2, 2).unwrap();

    assert!(pvs.is_visible(0, 2, 1).unwrap());
    assert!(pvs.is_visible(0, 2, 2).unwrap());
    assert!(!pvs.is_visible(0, 2, 0).unwrap());
    assert!(!pvs.is_visible(1, 2, 1).unwrap());
}

#[test]
fn pvs_bounds_and_listing() {
    let mut pvs = PVS::new(2, 4);
    assert!(matches!(pvs.mark_visible(2, 0, 1), Err(PVSError::OutOfBounds { .. })));
    assert!(matches!(pvs.is_visible(0, 4, 1), Err(PVSError::OutOfBounds { .. })));
    pvs.mark_visible(1, 3, 7).unwrap();
    pvs.mark_visible(1, 3, 7).unwrap();
    pvs.mark_visible(1, 3, 9).unwrap();
    let mut rooms = pvs.get_visible_rooms(1, 3).unwrap();
    rooms.sort();
    assert_eq!(rooms, vec![7, 9]);
    assert!(pvs.get_visible_rooms(0, 0).unwrap().is_empty());
}

#[test]
fn representatives_prefer_nodes_with_edges() {
    // Room 0 = {0, 1}, only node 1 has an edge; room 1 = {2}, no edges.
    let adj = vec![vec![], vec![(2, EdgeProps::default())], vec![]];
    let mut graph = Graph::from_adjacency(3, adj, NodeProps::default()).unwrap();
    graph.set_room(2, 1).unwrap();
    let rooms = RoomCollection::from_room_map(graph.room_map());
    let reps = precompute_representative_nodes(&graph, &rooms).unwrap();
    assert_eq!(reps.get(&0), Some(&1));
    assert_eq!(reps.get(&1), Some(&2));
    assert_eq!(find_representative_node(&graph, &rooms.rooms[0]).unwrap(), 1);
    let empty = Room { id: 5, node_start: 0, node_count: 0 };
    assert!(matches!(find_representative_node(&graph, &empty), Err(PVSError::EmptyRoom(5))));
}

#[test]
fn build_pvs_marks_the_listed_rooms() {
    // 0 -> 1 -> 2; room 0 = {0, 1}, room 1 = {2}; two angle bins.
    let adj = vec![vec![(1, EdgeProps::default())], vec![(2, EdgeProps::default())], vec![]];
    let mut graph = Graph::from_adjacency(3, adj, NodeProps::default()).unwrap();
    graph.set_room(2, 1).unwrap();
    let rooms = RoomCollection::from_room_map(graph.room_map());
    let reachable = vec![vec![0, 1], vec![0], vec![1], vec![]];
    let pvs = build_pvs(&graph, &rooms, 2, &reachable).unwrap();
    assert!(pvs.is_visible(0, 0, 0).unwrap());
    assert!(pvs.is_visible(0, 0, 1).unwrap());
    assert!(pvs.is_visible(0, 1, 0).unwrap());
    assert!(!pvs.is_visible(0, 1, 1).unwrap());
    assert!(pvs.is_visible(1, 0, 1).unwrap());
    assert!(!pvs.is_visible(1, 0, 0).unwrap());
    assert!(pvs.get_visible_rooms(1, 1).unwrap().is_empty());
}

#[test]
fn build_pvs_reports_empty_and_out_of_range_rooms() {
    let adj = vec![vec![(1, EdgeProps::default())], vec![]];
    let graph = Graph::from_adjacency(2, adj, NodeProps::default()).unwrap();
    // Room 3 has no node.
    let rooms = RoomCollection {
        rooms: vec![Room { id: 0, node_start: 0, node_count: 2 }, Room { id: 3, node_start: 2, node_count: 0 }],
        room_index: vec![],
    };
    let r = build_pvs(&graph, &rooms, 2, &vec![vec![], vec![], vec![], vec![]]);
    assert!(matches!(r, Err(PVSError::EmptyRoom(3))));
    // No bins: nothing is looked up, so nothing fails.
    assert!(build_pvs(&graph, &rooms, 0, &vec![]).is_ok());
    // Room id 1 is outside a one-room table: marking from its second bin fails.
    let rooms = RoomCollection { rooms: vec![Room { id: 1, node_start: 0, node_count: 1 }], room_index: vec![] };
    let mut graph = graph;
    graph.set_room(0, 1).unwrap();
    let r = build_pvs(&graph, &rooms, 2, &vec![vec![], vec![0]]);
    assert!(matches!(
        r,
        Err(PVSError::OutOfBounds { room_id: 1, angle_bin: 1, num_rooms: 1, num_angle_bins: 2 })
    ));
    // Reaching nothing, the same room is accepted.
    assert!(build_pvs(&graph, &rooms, 2, &vec![vec![], vec![]]).is_ok());
}
