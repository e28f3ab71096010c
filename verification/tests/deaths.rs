use gravity_scene::engine::EntityId;
use gravity_scene::scene::enemy::behaviors::blob::{BlobCoreData, BlobPhase};
use gravity_scene::scene::enemy::behaviors::shield::ShieldGeneration;
use gravity_scene::scene::enemy::behaviors::snake::SnakeChain;
use gravity_scene::scene::enemy::behaviors::splitter::SplitterData;
use gravity_scene::scene::enemy::manager::deaths::{
    cleanup_dead_enemies, handle_deaths, offspring, EnemyKind, EnemyRecord, Offspring,
};

fn rec(id: u32, alive: bool, kind: EnemyKind) -> EnemyRecord {
    EnemyRecord { id: EntityId(id), alive, kind }
}

fn splitter(current: u8, max: u8) -> SplitterData {
    SplitterData { current_generation: current, max_generation: max }
}

fn chain(ids: &[u32]) -> SnakeChain {
    let mut c = SnakeChain::new();
    for &id in ids {
        c.add_segment(EntityId(id));
    }
    c
}

fn blob_core(ids: &[u32]) -> BlobCoreData {
    let mut c = BlobCoreData::new();
    for &id in ids {
        c.add_node(EntityId(id));
    }
    c
}

#[test]
fn splitters_split_until_their_last_generation() {
    assert_eq!(offspring(&EnemyKind::Splitter(splitter(0, 2))), Offspring::Splitters(splitter(1, 2)));
    assert_eq!(offspring(&EnemyKind::Splitter(splitter(2, 2))), Offspring::Nothing);
    let g = ShieldGeneration { current_generation: 1, max_generation: 2, core_id: EntityId(5) };
    assert_eq!(
        offspring(&EnemyKind::Shield(g)),
        Offspring::Shields(ShieldGeneration { current_generation: 2, max_generation: 2, core_id: EntityId(5) })
    );
    assert_eq!(offspring(&EnemyKind::Plain), Offspring::Nothing);
}

#[test]
fn deaths_are_reported_in_list_order_and_removed() {
    let mut enemies = vec![
        rec(1, true, EnemyKind::Plain),
        rec(2, false, EnemyKind::Splitter(splitter(0, 1))),
        rec(3, false, EnemyKind::Plain),
        rec(4, true, EnemyKind::Splitter(splitter(0, 1))),
        rec(5, false, EnemyKind::Splitter(splitter(1, 1))),
    ];
    let mut next_id = 100;
    let died = handle_deaths(&mut enemies, &mut next_id);
    assert_eq!(died, vec![EntityId(2), EntityId(3), EntityId(5)]);
    assert_eq!(
        enemies,
        vec![
            rec(1, true, EnemyKind::Plain),
            rec(4, true, EnemyKind::Splitter(splitter(0, 1))),
            rec(100, true, EnemyKind::Splitter(splitter(1, 1))),
            rec(101, true, EnemyKind::Splitter(splitter(1, 1))),
        ]
    );
    assert_eq!(next_id, 102);
}

#[test]
fn dead_shields_break_into_two_of_the_next_generation() {
    let g = ShieldGeneration { current_generation: 0, max_generation: 1, core_id: EntityId(9) };
    let child = ShieldGeneration { current_generation: 1, max_generation: 1, core_id: EntityId(9) };
    let mut enemies = vec![rec(1, false, EnemyKind::Shield(g)), rec(2, false, EnemyKind::Shield(child))];
    let mut next_id = 7;
    let died = handle_deaths(&mut enemies, &mut next_id);
    assert_eq!(died, vec![EntityId(1), EntityId(2)]);
    assert_eq!(enemies, vec![rec(7, true, EnemyKind::Shield(child)), rec(8, true, EnemyKind::Shield(child))]);
    assert_eq!(next_id, 9);
}

#[test]
fn dead_segments_leave_their_heads_chain() {
    let mut enemies = vec![
        rec(10, true, EnemyKind::Snake(chain(&[11, 12, 13]))),
        rec(11, true, EnemyKind::SnakeSegment { head_id: EntityId(10) }),
        rec(12, false, EnemyKind::SnakeSegment { head_id: EntityId(10) }),
        rec(13, false, EnemyKind::SnakeSegment { head_id: EntityId(10) }),
    ];
    let mut next_id = 50;
    let died = handle_deaths(&mut enemies, &mut next_id);
    assert_eq!(died, vec![EntityId(12), EntityId(13)]);
    assert_eq!(
        enemies,
        vec![
            rec(10, true, EnemyKind::Snake(chain(&[11]))),
            rec(11, true, EnemyKind::SnakeSegment { head_id: EntityId(10) }),
        ]
    );
    assert_eq!(next_id, 50);
}

#[test]
fn a_dead_head_leaves_its_segments_alive() {
    let mut enemies = vec![
        rec(20, false, EnemyKind::Snake(chain(&[21]))),
        rec(21, true, EnemyKind::SnakeSegment { head_id: EntityId(20) }),
    ];
    let mut next_id = 0;
    let died = handle_deaths(&mut enemies, &mut next_id);
    assert_eq!(died, vec![EntityId(20)]);
    assert_eq!(enemies, vec![rec(21, true, EnemyKind::SnakeSegment { head_id: EntityId(20) })]);
}

#[test]
fn dead_nodes_leave_their_core() {
    let mut enemies = vec![
        rec(30, true, EnemyKind::BlobCore(blob_core(&[31, 32, 33]))),
        rec(31, false, EnemyKind::BlobNode { core_id: EntityId(30) }),
        rec(32, true, EnemyKind::BlobNode { core_id: EntityId(30) }),
        rec(40, true, EnemyKind::BlobCore(blob_core(&[41]))),
        rec(33, false, EnemyKind::BlobNode { core_id: EntityId(30) }),
    ];
    let mut next_id = 0;
    let died = handle_deaths(&mut enemies, &mut next_id);
    assert_eq!(died, vec![EntityId(31), EntityId(33)]);
    assert_eq!(enemies.len(), 3);
    match &enemies[0].kind {
        EnemyKind::BlobCore(c) => {
            assert_eq!(c.node_ids(), &vec![EntityId(32)]);
            assert_eq!(c.phase(), BlobPhase::Bolstering);
        }
        other => panic!("expected a blob core, got {:?}", other),
    }
    assert_eq!(enemies[1], rec(32, true, EnemyKind::BlobNode { core_id: EntityId(30) }));
    assert_eq!(enemies[2], rec(40, true, EnemyKind::BlobCore(blob_core(&[41]))));
}

#[test]
fn cleanup_removes_the_dead_and_keeps_order() {
    let mut enemies = vec![
        rec(1, false, EnemyKind::Plain),
        rec(2, true, EnemyKind::Plain),
        rec(3, false, EnemyKind::Plain),
        rec(4, true, EnemyKind::Plain),
    ];
    let destroyed = cleanup_dead_enemies(&mut enemies);
    assert_eq!(destroyed, vec![EntityId(1), EntityId(3)]);
    assert_eq!(enemies, vec![rec(2, true, EnemyKind::Plain), rec(4, true, EnemyKind::Plain)]);
}
