use rgdb::graph::{EdgeProps, Graph, NodeProps};
use rgdb::partitioning::{partition_graph, PartitioningAlgorithm};
use rgdb::rooms::{detect_portals, RoomCollection};

fn edge(to: u32) -> (u32, EdgeProps) {
    (to, EdgeProps::default())
}

#[test]
fn test_connected_components() {
    // Create a graph with two disconnected components using from_adjacency
    let adj = vec![
        vec![edge(1)], // Node 0 -> Node 1
        vec![edge(0)], // Node 1 -> Node 0
        vec![edge(3)], // Node 2 -> Node 3
        vec![edge(2)], // Node 3 -> Node 2
    ];
    let graph = Graph::from_adjacency(4, adj, NodeProps::default()).unwrap();

    let room_map = partition_graph(&graph, PartitioningAlgorithm::ConnectedComponents);

    // Nodes 0 and 1 should be in same room
    assert_eq!(room_map[0], room_map[1]);
    // Nodes 2 and 3 should be in same room
    assert_eq!(room_map[2], room_map[3]);
    // But different rooms
    assert_ne!(room_map[0], room_map[2]);
}

#[test]
fn test_portal_detection() {
    // Create graph with two rooms: [0,1] and [2,3]
    let adj = vec![
        vec![edge(1)], // Node 0 -> Node 1
        vec![edge(2)], // Node 1 -> Node 2 (portal)
        vec![edge(3)], // Node 2 -> Node 3
        vec![],        // Node 3
    ];
    let mut graph = Graph::from_adjacency(4, adj, NodeProps::default()).unwrap();

    // Set room assignments
    graph.set_room(0, 0).unwrap();
    graph.set_room(1, 0).unwrap();
    graph.set_room(2, 1).unwrap();
    graph.set_room(3, 1).unwrap();

    let portals = detect_portals(&graph);
    assert_eq!(portals.len(), 1);
    assert_eq!(portals[0], (1, 2));
}

#[test]
fn connected_components_ignore_edge_direction() {
    // 0 -> 1, 2 -> 1: one weakly connected component.
    let adj = vec![vec![edge(1)], vec![], vec![edge(1)]];
    let graph = Graph::from_adjacency(3, adj, NodeProps::default()).unwrap();
    let room_map = partition_graph(&graph, PartitioningAlgorithm::ConnectedComponents);
    assert_eq!(room_map, vec![0, 0, 0]);
    // 1 -> 0 alone: one room; node 2 apart.
    let adj = vec![vec![], vec![edge(0)], vec![]];
    let graph = Graph::from_adjacency(3, adj, NodeProps::default()).unwrap();
    let room_map = partition_graph(&graph, PartitioningAlgorithm::ConnectedComponents);
    assert_eq!(room_map, vec![0, 0, 1]);
}

#[test]
fn bfs_partition_fills_rooms_up_to_the_target_size() {
    // A chain 0 -> 1 -> 2 -> 3 -> 4.
    let adj = vec![vec![edge(1)], vec![edge(2)], vec![edge(3)], vec![edge(4)], vec![]];
    let graph = Graph::from_adjacency(5, adj, NodeProps::default()).unwrap();
    let room_map = partition_graph(&graph, PartitioningAlgorithm::BFSPartitioning { target_room_size: 2 });
    assert_eq!(room_map, vec![0, 0, 1, 1, 2]);
    // A star 0 -> {1, 2, 3}: nodes 2 and 3 are queued when the first room
    // fills; they are released and start rooms of their own.
    let adj = vec![vec![edge(1), edge(2), edge(3)], vec![], vec![], vec![]];
    let graph = Graph::from_adjacency(4, adj, NodeProps::default()).unwrap();
    let room_map = partition_graph(&graph, PartitioningAlgorithm::BFSPartitioning { target_room_size: 2 });
    assert_eq!(room_map, vec![0, 0, 1, 2]);
    // Target size 0 acts as 1.
    let room_map = partition_graph(&graph, PartitioningAlgorithm::BFSPartitioning { target_room_size: 0 });
    assert_eq!(room_map, vec![0, 1, 2, 3]);
}

#[test]
fn bfs_partition_never_exceeds_the_target_size() {
    // A star 0 -> {1, 2, 3, 4} with target size 2: no room holds three nodes.
    let adj = vec![vec![edge(1), edge(2), edge(3), edge(4)], vec![], vec![], vec![], vec![]];
    let graph = Graph::from_adjacency(5, adj, NodeProps::default()).unwrap();
    let room_map = partition_graph(&graph, PartitioningAlgorithm::BFSPartitioning { target_room_size: 2 });
    assert_eq!(room_map, vec![0, 0, 1, 2, 3]);
    for room in 0..4u32 {
        assert!(room_map.iter().filter(|&&r| r == room).count() <= 2);
    }
    // A room that does not fill up takes every out-neighbour: 0 -> 1 -> 2 with
    // target size 5 gives one room.
    let adj = vec![vec![edge(1)], vec![edge(2)], vec![]];
    let graph = Graph::from_adjacency(3, adj, NodeProps::default()).unwrap();
    let room_map = partition_graph(&graph, PartitioningAlgorithm::BFSPartitioning { target_room_size: 5 });
    assert_eq!(room_map, vec![0, 0, 0]);
}

#[test]
fn manual_partition_keeps_the_room_map() {
    let adj = vec![vec![edge(1)], vec![]];
    let mut graph = Graph::from_adjacency(2, adj, NodeProps::default()).unwrap();
    graph.set_room(1, 7).unwrap();
    let room_map = partition_graph(&graph, PartitioningAlgorithm::Manual);
    assert_eq!(room_map, vec![0, 7]);
}

#[test]
fn rooms_from_room_map_in_order_of_first_appearance() {
    let rooms = RoomCollection::from_room_map(&[2, 0, 2, 5]);
    assert_eq!(rooms.num_rooms(), 3);
    assert_eq!(rooms.rooms[0].id, 2);
    assert_eq!(rooms.rooms[0].node_count, 2);
    assert_eq!(rooms.rooms[0].node_start, 0);
    assert_eq!(rooms.rooms[1].id, 0);
    assert_eq!(rooms.rooms[1].node_start, 2);
    assert_eq!(rooms.rooms[2].id, 5);
    assert_eq!(rooms.rooms[2].node_start, 3);
    assert_eq!(rooms.room_index.len(), 6);
    assert_eq!(rooms.get_room(5).map(|r| r.node_count), Some(1));
    assert!(rooms.get_room(1).is_none());
    assert!(rooms.get_room(100).is_none());
}

#[test]
fn graph_construction_errors() {
    assert!(Graph::new(0).is_err());
    assert!(Graph::from_adjacency(2, vec![vec![edge(5)], vec![]], NodeProps::default()).is_err());
    assert!(Graph::from_adjacency(3, vec![vec![], vec![]], NodeProps::default()).is_err());
    assert!(Graph::from_csr(2, vec![0, 1, 0], vec![1], vec![NodeProps::default(); 2], vec![EdgeProps::default()], vec![0, 0]).is_err());
    let g = Graph::from_csr(2, vec![0, 1, 1], vec![1], vec![NodeProps::default(); 2], vec![EdgeProps::default()], vec![0, 0]).unwrap();
    assert_eq!(g.num_edges(), 1);
    assert!(g.get_edge(0, 1).is_some());
    assert!(g.get_edge(1, 0).is_none());
    assert_eq!(g.neighbors(0).len(), 1);
}

#[test]
fn room_and_props_are_read_back() {
    let adj = vec![vec![edge(1)], vec![edge(0)], vec![]];
    let mut graph = Graph::from_adjacency(3, adj, NodeProps::default()).unwrap();
    graph.set_room(1, 9).unwrap();
    assert_eq!(graph.get_room(1).unwrap(), 9);
    assert_eq!(graph.get_room(0).unwrap(), 0);
    assert_eq!(graph.get_room(2).unwrap(), 0);
    assert!(graph.set_room(3, 1).is_err());
    let props = NodeProps { reflection_bits: 0.5f32.to_bits(), refraction_index_bits: 2.0f32.to_bits() };
    graph.set_node_props(2, props).unwrap();
    assert_eq!(graph.node_props()[2], props);
    assert_eq!(graph.node_props()[0], NodeProps::default());
    assert_eq!(graph.neighbors(0), vec![edge(1)]);
}

#[test]
fn room_lookup_finds_each_id_of_the_map() {
    let room_map = [4u32, 1, 4, 4];
    let rooms = RoomCollection::from_room_map(&room_map);
    let r4 = rooms.get_room(4).unwrap();
    assert_eq!((r4.id, r4.node_count), (4, 3));
    let r1 = rooms.get_room(1).unwrap();
    assert_eq!((r1.id, r1.node_count), (1, 1));
    assert!(rooms.get_room(2).is_none());
    assert!(rooms.get_room(40).is_none());
}

#[test]
fn constructed_graphs_validate() {
    let adj = vec![vec![edge(1), edge(2)], vec![edge(2)], vec![]];
    let graph = Graph::from_adjacency(3, adj, NodeProps::default()).unwrap();
    assert!(graph.validate().is_ok());
    assert!(Graph::new(4).unwrap().validate().is_ok());
}
