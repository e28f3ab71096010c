use gravity_scene::scene::large_body::body_type::LargeBodyType;
use gravity_scene::scene::large_body::lifecycle::{
    advance_stage, cull_stage, remap_physics_indices, register_body, remnant_of, remove_dead_bodies, LifeStage,
};

#[test]
fn a_body_dies_in_order() {
    let s = advance_stage(LifeStage::Alive, false, true);
    assert_eq!(s, LifeStage::Alive);
    let s = advance_stage(s, true, false);
    assert_eq!(s, LifeStage::DeathSequence);
    let s = advance_stage(s, true, false);
    assert_eq!(s, LifeStage::DeathSequence);
    let s = advance_stage(s, false, true);
    assert_eq!(s, LifeStage::ReadyForRemoval);
    assert_eq!(advance_stage(s, false, false), LifeStage::ReadyForRemoval);
}

#[test]
fn culled_bodies_skip_the_death_sequence() {
    assert_eq!(cull_stage(LifeStage::Alive), LifeStage::ReadyForRemoval);
    assert_eq!(cull_stage(LifeStage::DeathSequence), LifeStage::ReadyForRemoval);
}

#[test]
fn stars_and_neutron_stars_leave_remnants() {
    assert_eq!(remnant_of(LargeBodyType::Star), Some(LargeBodyType::NeutronStar));
    assert_eq!(remnant_of(LargeBodyType::NeutronStar), Some(LargeBodyType::BlackHole));
    assert_eq!(remnant_of(LargeBodyType::GasGiant), None);
    assert_eq!(remnant_of(LargeBodyType::BlackHole), None);
    assert_eq!(remnant_of(LargeBodyType::Planet), None);
}

#[test]
fn indices_above_the_removed_body_move_down() {
    let mut indices = vec![Some(0), Some(3), None, Some(1), Some(5)];
    remap_physics_indices(&mut indices, 2);
    assert_eq!(indices, vec![Some(0), Some(2), None, Some(1), Some(4)]);
    // removed bodies' lists stay aligned with the shortened body list
    let bodies = vec!['a', 'b', 'c', 'd'];
    let mut after = bodies.clone();
    after.remove(1);
    let mut idx = vec![Some(0), Some(2), Some(3)];
    remap_physics_indices(&mut idx, 1);
    assert_eq!(idx.iter().map(|i| after[i.unwrap()]).collect::<Vec<_>>(), vec!['a', 'c', 'd']);
}

#[test]
fn removing_dead_bodies_keeps_every_index_on_its_own_entry() {
    let mut bodies = vec!["a", "b", "c", "d", "e"];
    let dead = vec![false, true, false, true, false];
    let mut indices = vec![Some(4), Some(0), None, Some(2), Some(1)];
    let mut gravity = vec!['A', 'E', 'D', 'x', 'y'];
    // entry 4 belongs to "a", 1 to "e", 0 to the dead "b", 2 to the dead "d"
    remove_dead_bodies(&mut bodies, &dead, &mut indices, &mut gravity);
    assert_eq!(bodies, vec!["a", "c", "e"]);
    assert_eq!(gravity, vec!['E', 'x', 'y']);
    assert_eq!(indices, vec![Some(2), None, Some(0)]);
    assert_eq!(gravity[indices[0].unwrap()], 'y');
    assert_eq!(gravity[indices[2].unwrap()], 'E');
}

#[test]
fn removing_no_dead_body_changes_nothing() {
    let mut bodies = vec![1, 2];
    let mut indices = vec![Some(1), Some(0)];
    let mut gravity = vec!['q', 'p'];
    remove_dead_bodies(&mut bodies, &vec![false, false], &mut indices, &mut gravity);
    assert_eq!(bodies, vec![1, 2]);
    assert_eq!(indices, vec![Some(1), Some(0)]);
    assert_eq!(gravity, vec!['q', 'p']);
}

#[test]
fn a_registered_body_holds_the_next_free_index() {
    let mut indices = vec![Some(1), None, Some(0)];
    let mut gravity = vec!['b', 'a'];
    let i = register_body(&mut indices, &mut gravity, 'c');
    assert_eq!(i, 2);
    assert_eq!(indices, vec![Some(1), None, Some(0), Some(2)]);
    assert_eq!(gravity[indices[3].unwrap()], 'c');
    // removal after registration still keeps every body on its entry
    let mut bodies = vec!["a", "x", "b", "c"];
    remove_dead_bodies(&mut bodies, &vec![false, false, true, false], &mut indices, &mut gravity);
    assert_eq!(bodies, vec!["a", "x", "c"]);
    assert_eq!(gravity, vec!['a', 'c']);
    assert_eq!(indices, vec![Some(0), None, Some(1)]);
}
