use gravity_scene::scene::bullet::pool::{BulletPool, SlotPool, BULLET_GROWTH_STEP};

#[test]
fn new_pool_has_all_slots_free() {
    let pool = BulletPool::new(4, 2);
    let stats = pool.stats();
    assert_eq!(stats.total_bullets, 4);
    assert_eq!(stats.total_metabullets, 2);
    assert_eq!(stats.active_bullets, 0);
    assert_eq!(stats.active_metabullets, 0);
    assert_eq!(stats.total_bullets_spawned, 0);
    assert!(!pool.is_bullet_active(0));
}

#[test]
fn acquire_pops_highest_free_slot_first() {
    let mut pool = BulletPool::new(3, 1);
    assert_eq!(pool.acquire_bullet(), Some(2));
    assert_eq!(pool.acquire_bullet(), Some(1));
    assert_eq!(pool.acquire_metabullet(), Some(0));
    assert_eq!(pool.active_bullet_indices(), &vec![2, 1]);
    assert!(pool.is_bullet_active(2));
    assert!(pool.is_metabullet_active(0));
    let stats = pool.stats();
    assert_eq!(stats.total_bullets_spawned, 2);
    assert_eq!(stats.max_bullets_used, 2);
}

#[test]
fn acquire_then_release_restores_bookkeeping() {
    let mut pool = SlotPool::new(5, 10);
    let a = pool.acquire().unwrap();
    let b = pool.acquire().unwrap();
    let active_before = pool.active_indices().clone();
    let c = pool.acquire().unwrap();
    pool.release(c);
    assert_eq!(pool.active_indices(), &active_before);
    // the released slot is the next one handed out again
    assert_eq!(pool.acquire(), Some(c));
    assert!(pool.is_slot_active(a) && pool.is_slot_active(b));
}

#[test]
fn release_swaps_last_into_place_and_ignores_free_slots() {
    let mut pool = SlotPool::new(4, 10);
    for _ in 0..4 {
        pool.acquire();
    }
    assert_eq!(pool.active_indices(), &vec![3, 2, 1, 0]);
    pool.release(2);
    assert_eq!(pool.active_indices(), &vec![3, 0, 1]);
    // releasing a free or out-of-range slot changes nothing
    pool.release(2);
    pool.release(99);
    assert_eq!(pool.active_indices(), &vec![3, 0, 1]);
    assert_eq!(pool.max_used(), 4);
}

#[test]
fn exhausted_pool_grows_by_step_or_doubling() {
    let mut pool = BulletPool::new(0, 0);
    // empty: grows by the step, top of the stack is the last new slot
    assert_eq!(pool.acquire_bullet(), Some(BULLET_GROWTH_STEP - 1));
    assert_eq!(pool.stats().total_bullets, BULLET_GROWTH_STEP);
    let mut big = SlotPool::new(3000, 1000);
    for _ in 0..3000 {
        big.acquire();
    }
    // doubling beats the step
    assert_eq!(big.acquire(), Some(5999));
    assert_eq!(big.len(), 6000);
}

#[test]
fn cleanup_releases_dead_bullets() {
    let mut pool = BulletPool::new(4, 2);
    for _ in 0..4 {
        pool.acquire_bullet();
    }
    pool.acquire_metabullet();
    // slots 3,2,1,0 active; 2 and 0 are dead
    let alive = vec![false, true, false, true];
    let meta_alive = vec![true, false];
    let (released, released_meta) = pool.cleanup_dead_bullets(&alive, &meta_alive);
    let mut sorted = released.clone();
    sorted.sort();
    assert_eq!(sorted, vec![0, 2]);
    assert_eq!(released_meta, vec![1]);
    let mut active = pool.active_bullet_indices().clone();
    active.sort();
    assert_eq!(active, vec![1, 3]);
    assert!(pool.active_metabullet_indices().is_empty());
    assert!(!pool.is_bullet_active(0));
    assert!(!pool.is_bullet_active(2));
}

#[test]
fn batch_acquire_hands_out_the_top_of_the_free_stack() {
    let mut pool = BulletPool::new(10, 5);
    assert_eq!(pool.batch_acquire_fractal_bullets(3), vec![9, 8, 7]);
    // handed-out slots are neither active nor free
    assert!(!pool.is_bullet_active(9));
    assert!(pool.active_bullet_indices().is_empty());
    assert_eq!(pool.acquire_bullet(), Some(6));
    let stats = pool.stats();
    assert_eq!(stats.total_bullets, 10);
    assert_eq!(stats.total_bullets_spawned, 1);
    assert_eq!(stats.total_metabullets, 5);
}

#[test]
fn batch_acquire_grows_until_enough_slots_are_free() {
    let mut pool = BulletPool::new(2, 1);
    let handed = pool.batch_acquire_fractal_bullets(3);
    assert_eq!(handed, vec![1001, 1000, 999]);
    assert_eq!(pool.stats().total_bullets, 2 + BULLET_GROWTH_STEP);
    assert_eq!(pool.batch_acquire_fractal_bullets(0), Vec::<usize>::new());
}

#[test]
fn added_slots_become_active_once() {
    let mut pool = BulletPool::new(4, 1);
    let handed = pool.batch_acquire_fractal_bullets(2);
    assert_eq!(handed, vec![3, 2]);
    pool.add_to_active_bullets(3);
    pool.add_to_active_bullets(2);
    pool.add_to_active_bullets(3);
    pool.add_to_active_bullets(40);
    assert_eq!(pool.active_bullet_indices(), &vec![3, 2]);
    assert!(pool.is_bullet_active(3) && pool.is_bullet_active(2));
    assert_eq!(pool.stats().max_bullets_used, 2);
    assert_eq!(pool.stats().total_bullets_spawned, 0);
    // an added slot is released like any other
    pool.release_bullet(3);
    assert_eq!(pool.active_bullet_indices(), &vec![2]);
    assert_eq!(pool.acquire_bullet(), Some(3));
}

#[test]
fn handed_out_slot_left_unused_stays_out_of_circulation() {
    let mut pool = BulletPool::new(2, 1);
    pool.batch_acquire_fractal_bullets(1);
    assert_eq!(pool.acquire_bullet(), Some(0));
    // slot 1 is neither free nor active: the next acquisition grows the pool
    assert_eq!(pool.acquire_bullet(), Some(1001));
}

#[test]
fn adding_a_metabullet_that_is_already_active_changes_nothing() {
    let mut pool = BulletPool::new(1, 2);
    let m = pool.acquire_metabullet().unwrap();
    pool.add_to_active_metabullets(m);
    pool.add_to_active_metabullets(7);
    assert_eq!(pool.active_metabullet_indices(), &vec![m]);
}
