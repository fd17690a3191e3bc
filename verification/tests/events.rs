use hydrology::events::{Events, InputEvent};

#[test]
fn new_tracker_is_empty() {
    let e = Events::new();
    assert!(e.held.is_empty());
    assert!(e.pressed.is_empty());
    assert!(e.released.is_empty());
    assert!(!e.held_contains(&7));
}

#[test]
fn pressed_key_is_held_next_frame() {
    let mut e = Events::new();
    e.update_down(42);
    assert_eq!(e.pressed, vec![42]);
    assert!(!e.held_contains(&42));
    e.update();
    assert!(e.held_contains(&42));
    assert!(e.pressed.is_empty());
}

#[test]
fn pressing_twice_records_once() {
    let mut e = Events::new();
    e.update_down(3);
    e.update_down(3);
    assert_eq!(e.pressed, vec![3]);
    e.update();
    e.update_down(3);
    assert!(e.pressed.is_empty());
    assert_eq!(e.held, vec![3]);
}

#[test]
fn released_key_is_no_longer_held() {
    let mut e = Events::new();
    e.update_down(1);
    e.update_down(2);
    e.update();
    e.update_up(1);
    assert_eq!(e.held, vec![2]);
    assert_eq!(e.released, vec![1]);
    e.update();
    assert!(e.released.is_empty());
    assert!(!e.held_contains(&1));
    assert!(e.held_contains(&2));
}

#[test]
fn pressed_keys_join_held_in_reverse_order() {
    let mut e = Events::new();
    e.update_down(10);
    e.update();
    e.update_down(20);
    e.update_down(30);
    e.update();
    assert_eq!(e.held, vec![10, 30, 20]);
}

#[test]
fn press_and_release_in_one_frame_leaves_key_held() {
    let mut e = Events::new();
    e.update_down(9);
    e.update_up(9);
    assert_eq!(e.released, vec![9]);
    e.update();
    assert!(e.held_contains(&9));
}

#[test]
fn release_of_unknown_key_is_recorded() {
    let mut e = Events::new();
    e.update_up(5);
    e.update_up(5);
    assert_eq!(e.released, vec![5, 5]);
    assert!(e.held.is_empty());
}

#[test]
fn handle_dispatches_events() {
    let mut e = Events::new();
    assert!(e.handle(InputEvent::KeyDown(Some(4))));
    assert_eq!(e.pressed, vec![4]);
    assert!(e.handle(InputEvent::KeyDown(None)));
    assert!(e.handle(InputEvent::Other));
    e.update();
    assert!(e.handle(InputEvent::KeyUp(Some(4))));
    assert!(!e.held_contains(&4));
    assert!(e.handle(InputEvent::KeyUp(None)));
    assert_eq!(e.released, vec![4]);
    assert!(!e.handle(InputEvent::Quit));
    assert_eq!(e.released, vec![4]);
}

#[test]
fn tracker_stays_consistent_over_a_session() {
    let mut e = Events::new();
    let script: [(u8, i32); 12] = [
        (0, 1), (0, 2), (0, 1), (2, 0), (0, 2), (0, 3), (1, 2), (2, 0), (0, 2), (1, 1), (0, 1), (2, 0),
    ];
    for (op, key) in script {
        match op {
            0 => e.update_down(key),
            1 => e.update_up(key),
            _ => e.update(),
        }
        for (i, a) in e.held.iter().enumerate() {
            assert!(!e.held[i + 1..].contains(a));
            assert!(!e.pressed.contains(a));
        }
        for (i, a) in e.pressed.iter().enumerate() {
            assert!(!e.pressed[i + 1..].contains(a));
        }
    }
    assert_eq!(e.held, vec![3, 1, 2]);
}

#[test]
fn pressed_and_released_follow_the_frame() {
    let mut e = Events::new();
    e.update_down(1);
    e.update_down(2);
    e.update_up(5);
    e.update_down(1);
    e.update_up(5);
    e.update_up(2);
    assert_eq!(e.pressed, vec![1, 2]);
    assert_eq!(e.released, vec![5, 5, 2]);
    e.update();
    assert!(e.pressed.is_empty());
    assert!(e.released.is_empty());
    e.update_down(2);
    e.update_down(3);
    e.update_up(1);
    assert_eq!(e.pressed, vec![3]);
    assert_eq!(e.released, vec![1]);
}
