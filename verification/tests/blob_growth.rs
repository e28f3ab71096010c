use gravity_scene::engine::EntityId;
use gravity_scene::scene::enemy::behaviors::blob::{BlobNodeType, BlobPhase, GridPos};
use gravity_scene::scene::enemy::manager::updater::{
    check_blob_connectivity, choose_aggressive_edge, choose_backfill, choose_bolstering_spawn,
    choose_defensive, choose_factory_upgrade, choose_factory_upgrade_random, collect_blob_positions,
    edge_positions, growth_candidates, plan_blob_growth, plan_blob_growth_with, plan_reaching_growth, plan_reaching_growth_with,
    spawn_toward, spawn_toward_random, apply_blob_tick, growth_position, BlobMember, ReachingPlan,
};
use gravity_scene::scene::enemy::behaviors::blob::BlobCoreData;

fn node(core: u32, kind: BlobNodeType, pos: GridPos, connected: bool) -> BlobMember {
    BlobMember::Node {
        core_id: EntityId(core),
        node_type: kind,
        grid_position: pos,
        connected_to_core: connected,
    }
}

fn flag(m: &BlobMember) -> bool {
    match m {
        BlobMember::Node { connected_to_core, .. } => *connected_to_core,
        _ => panic!("not a node"),
    }
}

#[test]
fn connectivity_marks_reachable_nodes() {
    let mut entries = vec![
        BlobMember::Core { id: EntityId(1) },
        node(1, BlobNodeType::Base, (1, 0, 0), false),
        node(1, BlobNodeType::Factory, (2, 0, 0), false),
        node(1, BlobNodeType::Base, (4, 0, 0), true),
        BlobMember::Other,
    ];
    check_blob_connectivity(&mut entries);
    assert!(flag(&entries[1]));
    assert!(flag(&entries[2]));
    assert!(!flag(&entries[3]));
    assert_eq!(entries[4], BlobMember::Other);
}

#[test]
fn connectivity_ignores_nodes_listed_before_their_core() {
    // A node listed before its core is not registered with it: it keeps its
    // flag and does not bridge the grid.
    let mut entries = vec![
        node(1, BlobNodeType::Base, (1, 0, 0), false),
        BlobMember::Core { id: EntityId(1) },
        node(1, BlobNodeType::Base, (2, 0, 0), true),
        node(9, BlobNodeType::Base, (1, 0, 0), true),
    ];
    check_blob_connectivity(&mut entries);
    assert!(!flag(&entries[0]));
    assert!(!flag(&entries[2]));
    // a node whose core is not in the list is untouched
    assert!(flag(&entries[3]));
}

#[test]
fn connectivity_updates_only_last_node_at_a_position() {
    let mut entries = vec![
        BlobMember::Core { id: EntityId(1) },
        node(1, BlobNodeType::Base, (1, 0, 0), false),
        node(1, BlobNodeType::Base, (1, 0, 0), false),
    ];
    check_blob_connectivity(&mut entries);
    assert!(!flag(&entries[1]));
    assert!(flag(&entries[2]));
}

#[test]
fn connectivity_handles_two_blobs_separately() {
    let mut entries = vec![
        BlobMember::Core { id: EntityId(1) },
        BlobMember::Core { id: EntityId(2) },
        node(2, BlobNodeType::Base, (0, 1, 0), false),
        node(1, BlobNodeType::Base, (0, 2, 0), true),
    ];
    check_blob_connectivity(&mut entries);
    assert!(flag(&entries[2]));
    assert!(!flag(&entries[3]));
}

#[test]
fn collects_occupied_and_connected_positions() {
    let entries = vec![
        BlobMember::Core { id: EntityId(1) },
        node(1, BlobNodeType::Base, (1, 0, 0), true),
        node(1, BlobNodeType::Base, (1, 0, 0), true),
        node(1, BlobNodeType::Factory, (3, 0, 0), false),
        node(2, BlobNodeType::Base, (0, 5, 0), true),
    ];
    let (occupied, connected) = collect_blob_positions(&entries, EntityId(1));
    assert_eq!(occupied, vec![(0, 0, 0), (1, 0, 0), (3, 0, 0)]);
    assert_eq!(connected, vec![(0, 0, 0), (1, 0, 0)]);
}

#[test]
fn edges_keep_list_order() {
    let mut connected: Vec<GridPos> = vec![(0, 0, 0)];
    connected.extend_from_slice(&[(1, 0, 0), (-1, 0, 0), (0, 1, 0), (0, -1, 0), (0, 0, 1), (0, 0, -1)]);
    let edges = edge_positions(&connected);
    assert_eq!(edges, connected[1..].to_vec());
}

#[test]
fn bolstering_prefers_dense_then_near_then_small() {
    // core plus two nodes in an L: (1,0,0) and (1,1,0)
    let occupied = vec![(0, 0, 0), (1, 0, 0), (1, 1, 0)];
    let connected = occupied.clone();
    // (0,1,0) touches the core and (1,1,0): two neighbours, distance 1
    assert_eq!(choose_bolstering_spawn(&occupied, &connected, false), Some((0, 1, 0)));
    assert_eq!(choose_bolstering_spawn(&occupied, &connected, true), Some((0, 1, 0)));
    // with nothing connected there is nowhere to grow
    assert_eq!(choose_bolstering_spawn(&occupied, &vec![], false), None);
}

#[test]
fn bolstering_breaks_ties_by_smallest_position() {
    let occupied = vec![(0, 0, 0)];
    let connected = vec![(0, 0, 0)];
    // all six neighbours have one neighbour and distance one
    assert_eq!(choose_bolstering_spawn(&occupied, &connected, false), Some((-1, 0, 0)));
}

#[test]
fn growth_candidates_are_listed_once_with_counts() {
    let occupied = vec![(0, 0, 0), (2, 0, 0)];
    let connected = vec![(0, 0, 0), (2, 0, 0)];
    let cands = growth_candidates(&occupied, &connected);
    assert_eq!(cands.len(), 11);
    let middle = cands.iter().find(|(p, _)| *p == (1, 0, 0)).unwrap();
    assert_eq!(middle.1, 2);
    assert!(cands.iter().all(|(p, _)| !occupied.contains(p)));
}

#[test]
fn backfill_picks_best_scored_gap() {
    let cands = vec![((1, 0, 0), 3usize), ((0, 2, 0), 3usize), ((5, 0, 0), 1usize)];
    // damaged: score = 1000 * count - distance; (1,0,0) wins
    assert_eq!(choose_backfill(&cands, true, (0, 0, 0)), Some((1, 0, 0)));
    // healthy: count >= 3 only; alignment with the player along +Y: (0,2,0) dot = 2 -> 300 + 100
    assert_eq!(choose_backfill(&cands, false, (0, 1, 0)), Some((0, 2, 0)));
    // healthy without dense gaps
    assert_eq!(choose_backfill(&vec![((1, 0, 0), 2usize)], false, (0, 0, 0)), None);
}

#[test]
fn defensive_pick_ranks_by_distance_then_position() {
    let cands = vec![((3, 0, 0), 1usize), ((0, 1, 0), 1usize), ((-1, 0, 0), 1usize), ((0, 0, 2), 1usize)];
    // ten candidates would give a share of two; with four the share is one
    assert_eq!(choose_defensive(&cands, 0), (-1, 0, 0));
}

#[test]
fn aggressive_edge_pick_is_stable() {
    let edges = vec![(1, 0, 0), (0, 1, 0), (2, 0, 0), (0, 0, 1)];
    // player along +X: (2,0,0) scores 20, (1,0,0) 10, the others -1000
    assert_eq!(choose_aggressive_edge(&edges, (1, 0, 0), 0), (2, 0, 0));
    let many: Vec<GridPos> = (0..20).map(|i| (0, i, 0)).collect();
    // share is two: picks 0 and 1 give the two best-aligned along +Y
    assert_eq!(choose_aggressive_edge(&many, (0, 1, 0), 0), (0, 19, 0));
    assert_eq!(choose_aggressive_edge(&many, (0, 1, 0), 1), (0, 18, 0));
    // with no alignment all score -1000 and the list order decides
    assert_eq!(choose_aggressive_edge(&many, (0, 0, 0), 1), (0, 1, 0));
}

#[test]
fn spawn_toward_steps_or_falls_back() {
    let occupied = vec![(0, 0, 0), (1, 0, 0), (2, 0, 0)];
    assert_eq!(spawn_toward((1, 0, 0), (0, 1, 0), &occupied, 0), Some((1, 1, 0)));
    // step blocked: free neighbours of (1,0,0) are (1,1,0),(1,-1,0),(1,0,1),(1,0,-1)
    assert_eq!(spawn_toward((1, 0, 0), (1, 0, 0), &occupied, 0), Some((1, 1, 0)));
    assert_eq!(spawn_toward((1, 0, 0), (1, 0, 0), &occupied, 3), Some((1, 0, -1)));
    let r = spawn_toward_random((1, 0, 0), (-1, 0, 0), &occupied).unwrap();
    assert!([(1, 1, 0), (1, -1, 0), (1, 0, 1), (1, 0, -1)].contains(&r));
}

#[test]
fn factory_upgrade_choice() {
    let mut entries = vec![BlobMember::Core { id: EntityId(7) }];
    // a plus-shaped blob around the core, every arm connected
    for p in [(1, 0, 0), (-1, 0, 0), (0, 1, 0), (0, -1, 0), (2, 0, 0), (1, 1, 0)] {
        entries.push(node(7, BlobNodeType::Base, p, true));
    }
    let connected: Vec<GridPos> = std::iter::once((0, 0, 0))
        .chain(entries.iter().filter_map(|m| match m {
            BlobMember::Node { grid_position, .. } => Some(*grid_position),
            _ => None,
        }))
        .collect();
    // (1,0,0) touches core,(2,0,0),(1,1,0); (1,1,0) touches (1,0,0),(0,1,0)
    // aligned with +X: (1,0,0) scores 10, (1,1,0) scores 10; stable order keeps (1,0,0) first
    assert_eq!(choose_factory_upgrade(&entries, EntityId(7), &connected, (1, 0, 0), 0), Some(1));
    let r = choose_factory_upgrade_random(&entries, EntityId(7), &connected, (1, 0, 0));
    assert_eq!(r, Some(1));
    // a core with no candidates upgrades nothing
    assert_eq!(choose_factory_upgrade(&entries, EntityId(8), &connected, (1, 0, 0), 0), None);
}

#[test]
fn factory_upgrade_respects_factory_cap() {
    let mut entries = vec![BlobMember::Core { id: EntityId(7) }];
    for i in 0..100 {
        entries.push(node(7, BlobNodeType::Factory, (100 + i, 0, 0), false));
    }
    entries.push(node(7, BlobNodeType::Base, (1, 0, 0), true));
    entries.push(node(7, BlobNodeType::Base, (1, 1, 0), true));
    entries.push(node(7, BlobNodeType::Base, (0, 1, 0), true));
    let connected = vec![(0, 0, 0), (1, 0, 0), (1, 1, 0), (0, 1, 0)];
    assert_eq!(choose_factory_upgrade(&entries, EntityId(7), &connected, (0, 0, 0), 0), None);
}

#[test]
fn reaching_growth_when_damaged_backfills() {
    let occupied = vec![(0, 0, 0), (1, 0, 0)];
    let connected = occupied.clone();
    // damaged: best gap by 1000 * neighbours - distance; all have one neighbour,
    // nearest first, then smallest position
    assert_eq!(
        plan_reaching_growth(&occupied, &connected, true, (0, 0, 0)),
        ReachingPlan::Spawn((-1, 0, 0))
    );
    assert_eq!(plan_reaching_growth(&occupied, &vec![], true, (0, 0, 0)), ReachingPlan::Nothing);
}

#[test]
fn reaching_growth_when_healthy_reaches_from_an_edge() {
    let occupied = vec![(0, 0, 0), (1, 0, 0)];
    let connected = occupied.clone();
    // no gap has three neighbours, so the blob reaches toward the player
    match plan_reaching_growth(&occupied, &connected, false, (1, 0, 0)) {
        ReachingPlan::Reach { edge } => assert_eq!(edge, (1, 0, 0)),
        other => panic!("unexpected plan {:?}", other),
    }
}

#[test]
fn growth_plan_by_phase() {
    let occupied = vec![(0, 0, 0)];
    let connected = vec![(0, 0, 0)];
    assert_eq!(
        plan_blob_growth(BlobPhase::Bolstering, &occupied, &connected, false, (0, 0, 0)),
        ReachingPlan::Spawn((-1, 0, 0))
    );
    assert_eq!(
        plan_blob_growth(BlobPhase::Reaching, &occupied, &connected, false, (0, 0, 0)),
        ReachingPlan::Reach { edge: (0, 0, 0) }
    );
}

#[test]
fn healthy_blob_backfills_on_a_low_roll_and_reaches_otherwise() {
    let connected = vec![(0, 0, 0), (1, 0, 0), (0, 1, 0), (2, 1, 0), (2, 0, 0)];
    let occupied = connected.clone();
    // (1, 1, 0) borders three connected cells: the only backfill gap
    assert_eq!(
        plan_reaching_growth_with(&occupied, &connected, false, (0, 0, 0), 0, 0),
        ReachingPlan::Spawn((1, 1, 0))
    );
    assert_eq!(
        plan_reaching_growth_with(&occupied, &connected, false, (0, 0, 0), 2, 0),
        ReachingPlan::Spawn((1, 1, 0))
    );
    // a roll of 3 or more reaches; all edges align equally, so list order decides
    assert_eq!(
        plan_reaching_growth_with(&occupied, &connected, false, (0, 0, 0), 3, 0),
        ReachingPlan::Reach { edge: (0, 0, 0) }
    );
    assert_eq!(
        plan_reaching_growth_with(&occupied, &connected, false, (0, 0, 0), 9, 0),
        ReachingPlan::Reach { edge: (0, 0, 0) }
    );
}

#[test]
fn healthy_blob_reaches_from_the_best_aligned_edge() {
    let connected = vec![(0, 0, 0), (1, 0, 0), (-1, 0, 0)];
    let occupied = connected.clone();
    // no gap has three neighbours, so any roll reaches; toward +x
    assert_eq!(
        plan_reaching_growth_with(&occupied, &connected, false, (1, 0, 0), 0, 0),
        ReachingPlan::Reach { edge: (1, 0, 0) }
    );
    assert_eq!(plan_reaching_growth_with(&vec![], &vec![], false, (1, 0, 0), 0, 0), ReachingPlan::Nothing);
}

#[test]
fn damaged_blob_always_backfills() {
    let occupied = vec![(0, 0, 0), (1, 0, 0)];
    let connected = occupied.clone();
    for roll in [0, 5, 9] {
        assert_eq!(
            plan_reaching_growth_with(&occupied, &connected, true, (0, 0, 0), roll, 0),
            ReachingPlan::Spawn((-1, 0, 0))
        );
    }
}

#[test]
fn growth_tick_upgrades_then_adds_one_node() {
    let mut entries = vec![
        BlobMember::Core { id: EntityId(1) },
        node(1, BlobNodeType::Base, (1, 0, 0), true),
        BlobMember::Other,
    ];
    let mut core = BlobCoreData::new();
    apply_blob_tick(&mut entries, &mut core, EntityId(1), Some(1), Some((2, 0, 0)), EntityId(9));
    assert_eq!(entries.len(), 4);
    assert_eq!(entries[1], node(1, BlobNodeType::Factory, (1, 0, 0), true));
    assert_eq!(entries[3], node(1, BlobNodeType::Base, (2, 0, 0), true));
    assert_eq!(core.node_ids(), &vec![EntityId(9)]);
    // an upgrade index that is not a node, and no growth: nothing changes
    let before = entries.clone();
    apply_blob_tick(&mut entries, &mut core, EntityId(1), Some(2), None, EntityId(10));
    assert_eq!(entries, before);
    assert_eq!(core.node_count(), 1);
}

#[test]
fn grown_node_is_flagged_connected_by_the_next_check() {
    let mut entries = vec![
        BlobMember::Core { id: EntityId(1) },
        node(1, BlobNodeType::Base, (1, 0, 0), true),
        node(1, BlobNodeType::Base, (5, 0, 0), false),
    ];
    let mut core = BlobCoreData::new();
    apply_blob_tick(&mut entries, &mut core, EntityId(1), None, Some((2, 0, 0)), EntityId(7));
    check_blob_connectivity(&mut entries);
    assert!(flag(&entries[3]));
    assert!(flag(&entries[1]));
    assert!(!flag(&entries[2]));
}

#[test]
fn blob_growth_plan_for_a_given_roll_and_pick() {
    let occupied = vec![(0, 0, 0)];
    let connected = vec![(0, 0, 0)];
    assert_eq!(
        plan_blob_growth_with(BlobPhase::Bolstering, &occupied, &connected, false, (0, 0, 0), 0, 0),
        ReachingPlan::Spawn((-1, 0, 0))
    );
    assert_eq!(
        plan_blob_growth_with(BlobPhase::Reaching, &occupied, &connected, false, (0, 0, 0), 7, 0),
        ReachingPlan::Reach { edge: (0, 0, 0) }
    );
}

#[test]
fn a_blob_at_its_size_limit_grows_no_node() {
    let mut core = BlobCoreData::new();
    for id in 0..core.max_size() {
        core.add_node(EntityId(id));
    }
    assert!(core.is_at_max_capacity());
    let mut entries = vec![BlobMember::Core { id: EntityId(1) }, node(1, BlobNodeType::Base, (1, 0, 0), true)];
    apply_blob_tick(&mut entries, &mut core, EntityId(1), Some(1), Some((2, 0, 0)), EntityId(99_999));
    assert_eq!(entries.len(), 2);
    assert_eq!(entries[1], node(1, BlobNodeType::Factory, (1, 0, 0), true));
    assert_eq!(core.node_count(), core.max_size() as usize);
}

#[test]
fn a_plan_grows_into_a_free_cell_next_to_a_connected_one() {
    let occupied = vec![(0, 0, 0), (1, 0, 0), (2, 0, 0)];
    let connected = vec![(0, 0, 0), (1, 0, 0)];
    assert_eq!(growth_position(ReachingPlan::Nothing, (1, 0, 0), &occupied, &connected), None);
    assert_eq!(growth_position(ReachingPlan::Spawn((0, 1, 0)), (1, 0, 0), &occupied, &connected), Some((0, 1, 0)));
    // the step toward the player is free
    assert_eq!(
        growth_position(ReachingPlan::Reach { edge: (1, 0, 0) }, (0, 0, 1), &occupied, &connected),
        Some((1, 0, 1))
    );
    // the step is taken: some free neighbour of the edge instead
    for _ in 0..50 {
        let p = growth_position(ReachingPlan::Reach { edge: (1, 0, 0) }, (1, 0, 0), &occupied, &connected).unwrap();
        assert!(!occupied.contains(&p));
        let d = (p.0 - 1).abs() + p.1.abs() + p.2.abs();
        assert_eq!(d, 1);
    }
}
