use batch_msm::collision_state::{CollisionState, NIL};

#[test]
fn new_scheduler_is_idle() {
    let state = CollisionState::new(3);
    assert!(!state.needs_processing());
    assert!(!state.reaches_max_collision_count());
    assert_eq!(state.get_unprocessed_tail(), NIL);
    assert_eq!(NIL, u32::MAX);
}

#[test]
fn slots_are_handed_out_in_index_order() {
    let mut state = CollisionState::new(2);
    assert_eq!(state.add_unprocessed(10), 0);
    assert_eq!(state.add_unprocessed(11), 1);
    assert_eq!(state.add_unprocessed(12), 2);
    assert_eq!(state.add_unprocessed(13), 3);
    assert_eq!(state.get_entry_data(0), 10);
    assert_eq!(state.get_entry_data(1), 11);
    assert_eq!(state.get_entry_data(2), 12);
    assert_eq!(state.get_entry_data(3), 13);
    assert_eq!(state.get_unprocessed_tail(), 3);
}

#[test]
fn backlog_threshold() {
    let mut state = CollisionState::new(2);
    assert!(!state.reaches_max_collision_count());
    state.add_unprocessed(7);
    assert!(!state.reaches_max_collision_count());
    state.add_unprocessed(8);
    assert!(state.reaches_max_collision_count());
    state.add_unprocessed(9);
    assert!(state.reaches_max_collision_count());
    let index = state.dequeue_unprocessed();
    state.mark_entry_processing(index);
    assert!(state.reaches_max_collision_count());
    let index = state.dequeue_unprocessed();
    state.mark_entry_processing(index);
    assert!(!state.reaches_max_collision_count());
}

#[test]
fn deferred_slots_come_back_oldest_first() {
    let mut state = CollisionState::new(2);
    let a = state.add_unprocessed(100);
    let b = state.add_unprocessed(200);
    let c = state.add_unprocessed(300);
    assert_eq!(state.dequeue_unprocessed(), a);
    assert_eq!(state.dequeue_unprocessed(), b);
    assert_eq!(state.get_unprocessed_tail(), c);
    assert_eq!(state.dequeue_unprocessed(), c);
    assert_eq!(state.get_unprocessed_tail(), NIL);
    assert!(!state.needs_processing());
    state.mark_entry_unprocessed(b);
    assert!(state.needs_processing());
    assert_eq!(state.get_unprocessed_tail(), b);
    state.mark_entry_unprocessed(a);
    assert_eq!(state.get_unprocessed_tail(), a);
    assert_eq!(state.dequeue_unprocessed(), b);
    assert_eq!(state.dequeue_unprocessed(), a);
    assert_eq!(state.get_entry_data(a), 100);
    assert_eq!(state.get_entry_data(b), 200);
    assert_eq!(state.get_entry_data(c), 300);
}

#[test]
fn round_with_a_collision() {
    let mut state = CollisionState::new(2);
    let a = state.add_unprocessed(5);
    let b = state.add_unprocessed(5);
    assert!(state.needs_processing());

    let first = state.dequeue_unprocessed();
    assert_eq!(first, a);
    state.mark_entry_processing(first);
    let second = state.dequeue_unprocessed();
    assert_eq!(second, b);
    assert_eq!(state.get_entry_data(second), state.get_entry_data(first));
    state.mark_entry_unprocessed(second);
    assert_eq!(state.get_unprocessed_tail(), second);
    assert!(state.needs_processing());

    state.free_processing();
    assert!(state.needs_processing());
    let again = state.dequeue_unprocessed();
    assert_eq!(again, b);
    state.mark_entry_processing(again);
    assert!(state.needs_processing());
    state.free_processing();
    assert!(!state.needs_processing());
}

#[test]
fn freed_slots_go_to_the_back_of_the_free_list() {
    let mut state = CollisionState::new(2);
    let a = state.add_unprocessed(1);
    let b = state.add_unprocessed(2);
    assert_eq!((a, b), (0, 1));
    let x = state.dequeue_unprocessed();
    state.mark_entry_processing(x);
    let y = state.dequeue_unprocessed();
    state.mark_entry_processing(y);
    state.free_processing();
    assert_eq!(state.add_unprocessed(3), 2);
    assert_eq!(state.add_unprocessed(4), 3);
    assert_eq!(state.add_unprocessed(5), 0);
    assert_eq!(state.add_unprocessed(6), 1);
    assert_eq!(state.get_entry_data(0), 5);
    assert_eq!(state.get_entry_data(1), 6);
}

#[test]
fn free_processing_into_an_empty_free_list() {
    let mut state = CollisionState::new(1);
    let a = state.add_unprocessed(1);
    let b = state.add_unprocessed(2);
    let x = state.dequeue_unprocessed();
    state.mark_entry_processing(x);
    let y = state.dequeue_unprocessed();
    state.mark_entry_processing(y);
    state.free_processing();
    assert!(!state.needs_processing());
    assert_eq!(state.add_unprocessed(3), a);
    assert_eq!(state.add_unprocessed(4), b);
    assert_eq!(state.get_unprocessed_tail(), b);
}

#[test]
fn free_processing_with_nothing_processing() {
    let mut state = CollisionState::new(1);
    state.free_processing();
    assert_eq!(state.add_unprocessed(9), 0);
    state.free_processing();
    assert!(state.needs_processing());
    assert_eq!(state.get_unprocessed_tail(), 0);
    assert_eq!(state.add_unprocessed(8), 1);
}

#[test]
fn free_slots_run_out_at_twice_the_backlog() {
    let mut state = CollisionState::new(1);
    assert!(state.has_free_slot());
    state.add_unprocessed(1);
    assert!(state.has_free_slot());
    state.add_unprocessed(2);
    assert!(!state.has_free_slot());
    let index = state.dequeue_unprocessed();
    assert!(!state.has_free_slot());
    state.mark_entry_processing(index);
    assert!(!state.has_free_slot());
    state.free_processing();
    assert!(state.has_free_slot());
}

#[test]
fn every_slot_is_handed_out_exactly_once() {
    let mut state = CollisionState::new(4);
    let mut seen = vec![false; 8];
    for i in 0..8u32 {
        assert!(state.has_free_slot());
        let index = state.add_unprocessed(i);
        assert!(!seen[index as usize]);
        seen[index as usize] = true;
    }
    assert!(!state.has_free_slot());
    assert!(seen.iter().all(|s| *s));

    // Move five slots through a batch and free them: exactly those five come back.
    let mut moved = vec![false; 8];
    for _ in 0..5 {
        let index = state.dequeue_unprocessed();
        moved[index as usize] = true;
        state.mark_entry_processing(index);
    }
    state.free_processing();
    let mut back = vec![false; 8];
    for i in 0..5u32 {
        assert!(state.has_free_slot());
        let index = state.add_unprocessed(100 + i);
        assert!(!back[index as usize]);
        back[index as usize] = true;
        assert_eq!(state.get_entry_data(index), 100 + i);
    }
    assert!(!state.has_free_slot());
    assert_eq!(back, moved);
}

#[test]
fn backlog_counter_follows_the_deferred_queue() {
    let mut state = CollisionState::new(3);
    let mut deferred = 0;
    for i in 0..5u32 {
        state.add_unprocessed(i);
        deferred += 1;
        assert_eq!(state.reaches_max_collision_count(), deferred >= 3);
    }
    for _ in 0..5 {
        let index = state.dequeue_unprocessed();
        deferred -= 1;
        assert_eq!(state.reaches_max_collision_count(), deferred >= 3);
        state.mark_entry_processing(index);
        assert_eq!(state.reaches_max_collision_count(), deferred >= 3);
    }
    assert!(state.needs_processing());
    state.free_processing();
    assert!(!state.needs_processing());
    assert!(!state.reaches_max_collision_count());
}
