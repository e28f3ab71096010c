use gravity_scene::engine::EntityId;
use gravity_scene::scene::enemy::behaviors::blob::{
    contains_pos, count_connected_neighbors, direction_toward_core, flood_fill_from_core,
    get_adjacent_positions, is_edge_position, manhattan_distance, pos_less, BlobCoreData, BlobPhase,
    BLOB_MAX_SIZE,
};

#[test]
fn adjacent_positions_are_the_six_face_neighbours_in_order() {
    let adj = get_adjacent_positions((1, -2, 3));
    assert_eq!(
        adj,
        [(2, -2, 3), (0, -2, 3), (1, -1, 3), (1, -3, 3), (1, -2, 4), (1, -2, 2)]
    );
}

#[test]
fn direction_toward_core_follows_largest_axis() {
    assert_eq!(direction_toward_core((5, 2, -1)), (-1, 0, 0));
    assert_eq!(direction_toward_core((1, -7, 3)), (0, 1, 0));
    assert_eq!(direction_toward_core((0, 2, -9)), (0, 0, 1));
    // ties prefer X, then Y
    assert_eq!(direction_toward_core((-4, 4, 4)), (1, 0, 0));
    assert_eq!(direction_toward_core((0, 3, -3)), (0, -1, 0));
    // at the core there is nowhere to go
    assert_eq!(direction_toward_core((0, 0, 0)), (0, 0, 0));
}

#[test]
fn edge_position_has_a_free_neighbour() {
    let mut occupied = vec![(0, 0, 0)];
    assert!(is_edge_position((0, 0, 0), &occupied));
    occupied.extend_from_slice(&[(1, 0, 0), (-1, 0, 0), (0, 1, 0), (0, -1, 0), (0, 0, 1)]);
    assert!(is_edge_position((0, 0, 0), &occupied));
    occupied.push((0, 0, -1));
    assert!(!is_edge_position((0, 0, 0), &occupied));
    assert!(is_edge_position((1, 0, 0), &occupied));
}

#[test]
fn flood_fill_reaches_only_connected_positions() {
    // a chain from the core, plus an island that does not touch it
    let occupied = vec![(1, 0, 0), (2, 0, 0), (2, 1, 0), (5, 5, 5), (5, 5, 6), (0, 0, -1)];
    let connected = flood_fill_from_core(&occupied);
    assert_eq!(connected.len(), 5);
    for p in [(0, 0, 0), (1, 0, 0), (2, 0, 0), (2, 1, 0), (0, 0, -1)] {
        assert!(connected.contains(&p), "{:?} should be connected", p);
    }
    assert!(!connected.contains(&(5, 5, 5)));
    assert!(!connected.contains(&(5, 5, 6)));
}

#[test]
fn flood_fill_of_empty_grid_is_the_core() {
    assert_eq!(flood_fill_from_core(&vec![]), vec![(0, 0, 0)]);
    // diagonal neighbours do not connect
    assert_eq!(flood_fill_from_core(&vec![(1, 1, 0)]), vec![(0, 0, 0)]);
}

#[test]
fn neighbour_count_and_distance() {
    let connected = vec![(0, 0, 0), (2, 0, 0), (1, 1, 0), (7, 7, 7)];
    assert_eq!(count_connected_neighbors((1, 0, 0), &connected), 3);
    assert_eq!(count_connected_neighbors((9, 9, 9), &connected), 0);
    assert_eq!(manhattan_distance((-3, 4, -5)), 12);
    assert!(contains_pos(&connected, (7, 7, 7)));
    assert!(!contains_pos(&connected, (7, 7, 6)));
    assert!(pos_less((0, 5, 5), (1, 0, 0)));
    assert!(pos_less((1, 0, 5), (1, 1, 0)));
    assert!(!pos_less((1, 1, 1), (1, 1, 1)));
}

#[test]
fn blob_core_phase_follows_node_count() {
    let mut core = BlobCoreData::new();
    assert_eq!(core.phase(), BlobPhase::Bolstering);
    assert_eq!(core.max_size(), BLOB_MAX_SIZE);
    for i in 0..272u32 {
        core.add_node(EntityId(i));
    }
    assert_eq!(core.node_count(), 272);
    assert_eq!(core.phase(), BlobPhase::Bolstering);
    core.add_node(EntityId(272));
    assert_eq!(core.phase(), BlobPhase::Reaching);
    core.remove_node(EntityId(5));
    assert_eq!(core.node_count(), 272);
    assert_eq!(core.phase(), BlobPhase::Bolstering);
    assert!(!core.node_ids().contains(&EntityId(5)));
    assert!(!core.is_at_max_capacity());
}

#[test]
fn blob_core_remove_node_drops_every_copy_and_keeps_order() {
    let mut core = BlobCoreData::new();
    for id in [3u32, 1, 3, 2, 3] {
        core.add_node(EntityId(id));
    }
    core.remove_node(EntityId(3));
    assert_eq!(core.node_ids(), &vec![EntityId(1), EntityId(2)]);
    core.remove_node(EntityId(42));
    assert_eq!(core.node_count(), 2);
}
