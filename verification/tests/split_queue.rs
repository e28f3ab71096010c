use gravity_scene::engine::EntityId;
use gravity_scene::scene::bullet::pool::BulletPool;
use gravity_scene::scene::bullet::split_queue::{
    plan_split_children, SplitChild, SplitQueue, DEFAULT_SPLIT_BATCH_SIZE, FIRST_FRACTAL_CHILD_ID,
};

#[test]
fn new_queue_is_empty_with_default_batch() {
    let q = SplitQueue::new();
    assert_eq!(q.pending_split_count(), 0);
    assert_eq!(q.fractal_batch_size(), DEFAULT_SPLIT_BATCH_SIZE);
    assert_eq!(DEFAULT_SPLIT_BATCH_SIZE, 1000);
}

#[test]
fn batch_size_is_at_least_one() {
    let mut q = SplitQueue::new();
    q.set_fractal_batch_size(0);
    assert_eq!(q.fractal_batch_size(), 1);
    q.set_fractal_batch_size(25);
    assert_eq!(q.fractal_batch_size(), 25);
}

#[test]
fn ready_slots_join_once_in_offer_order() {
    let mut q = SplitQueue::new();
    q.enqueue_ready(&vec![5, 3, 9, 5], &vec![true, true, false, true]);
    assert_eq!(q.pending_split_count(), 2);
    q.enqueue_ready(&vec![9, 3], &vec![true, true]);
    assert_eq!(q.take_batch(), vec![5, 3, 9]);
    assert_eq!(q.pending_split_count(), 0);
}

#[test]
fn batch_takes_the_oldest_first() {
    let mut q = SplitQueue::new();
    q.set_fractal_batch_size(2);
    q.enqueue_ready(&vec![7, 1, 4, 2], &vec![true; 4]);
    assert_eq!(q.take_batch(), vec![7, 1]);
    assert_eq!(q.take_batch(), vec![4, 2]);
    assert_eq!(q.take_batch(), Vec::<usize>::new());
}

#[test]
fn a_waiting_split_always_gets_through() {
    let mut q = SplitQueue::new();
    q.set_fractal_batch_size(0);
    q.enqueue_ready(&vec![8, 6], &vec![true, true]);
    assert_eq!(q.take_batch(), vec![8]);
    assert_eq!(q.take_batch(), vec![6]);
}

#[test]
fn inactive_slots_leave_the_queue() {
    let mut q = SplitQueue::new();
    q.enqueue_ready(&vec![0, 4, 2, 9], &vec![true; 4]);
    let mut active = vec![false; 5];
    active[0] = true;
    active[2] = true;
    // slot 9 does not exist any more, slot 4 is inactive
    q.retain_active(&active);
    assert_eq!(q.take_batch(), vec![0, 2]);
}

fn child(parent: usize, slot: usize, id: u32) -> SplitChild {
    SplitChild { parent, slot, entity_id: EntityId(id) }
}

#[test]
fn children_take_slots_and_ids_in_order() {
    let (children, next) = plan_split_children(&vec![2, 3], &vec![40, 41, 42, 43, 44], 100);
    assert_eq!(
        children,
        vec![child(0, 40, 100), child(0, 41, 101), child(1, 42, 102), child(1, 43, 103), child(1, 44, 104)]
    );
    assert_eq!(next, 105);
}

#[test]
fn children_without_a_slot_are_skipped_but_keep_their_ids() {
    let (children, next) = plan_split_children(&vec![2, 2], &vec![7, 8, 9], 0);
    assert_eq!(children, vec![child(0, 7, 0), child(0, 8, 1), child(1, 9, 2)]);
    assert_eq!(next, 4);
    let (none, next) = plan_split_children(&vec![0, 0], &vec![], 5);
    assert!(none.is_empty());
    assert_eq!(next, 5);
}

#[test]
fn a_split_batch_from_queue_to_active_children() {
    let mut pool = BulletPool::new(8, 1);
    let a = pool.acquire_bullet().unwrap();
    let b = pool.acquire_bullet().unwrap();
    let mut q = SplitQueue::new();
    q.enqueue_ready(&vec![a, b], &vec![true, true]);
    let batch = q.take_batch();
    assert_eq!(batch, vec![a, b]);
    let counts = vec![2, 3];
    let slots = pool.batch_acquire_fractal_bullets(5);
    let (children, next) = plan_split_children(&counts, &slots, FIRST_FRACTAL_CHILD_ID);
    assert_eq!(children.len(), 5);
    assert_eq!(next, FIRST_FRACTAL_CHILD_ID + 5);
    for c in &children {
        pool.add_to_active_bullets(c.slot);
    }
    assert_eq!(pool.stats().active_bullets, 7);
    assert_eq!(pool.stats().total_bullets, 8);
}
