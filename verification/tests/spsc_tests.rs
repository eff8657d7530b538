use high_frequency_snake::game::types::{Direction, Input};
use high_frequency_snake::ipc::spsc::{consume_slot, next_index, produce_slot, Spsc};

#[test]
fn next_index_wraps() {
    assert_eq!(next_index(0, 4), 1);
    assert_eq!(next_index(2, 4), 3);
    assert_eq!(next_index(3, 4), 0);
    assert_eq!(next_index(0, 1), 0);
}

#[test]
fn slots_tell_full_from_empty() {
    assert_eq!(produce_slot(0, 0, 4), Some(1));
    assert_eq!(produce_slot(2, 3, 4), None);
    assert_eq!(produce_slot(3, 0, 4), None);
    assert_eq!(produce_slot(3, 1, 4), Some(0));
    assert_eq!(consume_slot(0, 0, 4), None);
    assert_eq!(consume_slot(3, 1, 4), Some(0));
    assert_eq!(consume_slot(1, 2, 4), Some(2));
}

#[test]
fn empty_ring_hands_out_nothing() {
    let mut ring = Spsc::<u32, 8>::new();
    assert_eq!(ring.consume(), None);
}

#[test]
fn ring_keeps_order() {
    let mut ring = Spsc::<u32, 8>::new();
    for v in 1..=5 {
        assert!(ring.produce(v));
    }
    for v in 1..=5 {
        assert_eq!(ring.consume(), Some(v));
    }
    assert_eq!(ring.consume(), None);
}

#[test]
fn ring_holds_one_less_than_its_slots() {
    let mut ring = Spsc::<u32, 4>::new();
    assert!(ring.produce(1));
    assert!(ring.produce(2));
    assert!(ring.produce(3));
    assert!(!ring.produce(4));
    assert_eq!(ring.consume(), Some(1));
    assert!(ring.produce(5));
    assert!(!ring.produce(6));
    assert_eq!(ring.consume(), Some(2));
    assert_eq!(ring.consume(), Some(3));
    assert_eq!(ring.consume(), Some(5));
    assert_eq!(ring.consume(), None);
}

#[test]
fn ring_of_one_slot_takes_nothing() {
    let mut ring = Spsc::<u32, 1>::new();
    assert!(!ring.produce(1));
    assert_eq!(ring.consume(), None);
}

#[test]
fn nothing_is_lost_over_many_rounds() {
    let mut ring = Spsc::<u64, 16>::new();
    let mut offered = 0u64;
    let mut accepted = Vec::new();
    let mut consumed = Vec::new();
    for round in 0..200u64 {
        for _ in 0..(round % 7) {
            if ring.produce(offered) {
                accepted.push(offered);
            }
            offered += 1;
        }
        for _ in 0..(round % 5) {
            if let Some(v) = ring.consume() {
                consumed.push(v);
            }
        }
    }
    while let Some(v) = ring.consume() {
        consumed.push(v);
    }
    assert_eq!(accepted, consumed);
}

#[test]
fn ring_carries_inputs() {
    let mut ring = Spsc::<Input, 4>::new();
    assert!(ring.produce(Input { snake_id: 7, direction: Direction::Left }));
    let input = ring.consume().unwrap();
    assert_eq!(input.snake_id, 7);
    assert_eq!(input.direction, Direction::Left);
}
