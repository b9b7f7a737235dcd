use std::collections::VecDeque;
use wheelqueue::timing_wheel::bucket::{BoundedSlot, SlotLike};
use wheelqueue::timing_wheel::level::Level;

#[test]
fn bounded_slot_is_a_stack_with_a_limit() {
    let mut slot: BoundedSlot<u32, 2> = Default::default();
    assert_eq!(slot.size(), 0);
    assert_eq!(slot.pop(), None);
    assert_eq!(slot.push(1), Ok(()));
    assert_eq!(slot.push(2), Ok(()));
    assert_eq!(slot.size(), 2);
    assert_eq!(slot.push(3), Err(3));
    assert_eq!(slot.size(), 2);
    assert_eq!(slot.pop(), Some(2));
    assert_eq!(slot.push(4), Ok(()));
    assert_eq!(slot.pop(), Some(4));
    assert_eq!(slot.pop(), Some(1));
    assert_eq!(slot.pop(), None);
    let mut none: BoundedSlot<u32, 0> = Default::default();
    assert_eq!(none.push(9), Err(9));
}

#[test]
fn deque_is_a_queue_without_a_limit() {
    let mut slot: VecDeque<u32> = Default::default();
    assert_eq!(SlotLike::size(&slot), 0);
    assert_eq!(SlotLike::pop(&mut slot), None);
    for item in 0..1000 {
        assert_eq!(SlotLike::push(&mut slot, item), Ok(()));
    }
    assert_eq!(SlotLike::size(&slot), 1000);
    for item in 0..1000 {
        assert_eq!(SlotLike::pop(&mut slot), Some(item));
    }
    assert_eq!(SlotLike::pop(&mut slot), None);
}

#[test]
fn a_level_marks_the_buckets_that_hold_something() {
    let mut level = Level::<BoundedSlot<u32, 2>>::new(4);
    assert_eq!(level.next_event(0), None);
    assert_eq!(level.push_at(1, 10), Ok(()));
    assert_eq!(level.push_at(1, 11), Ok(()));
    assert_eq!(level.push_at(1, 12), Err(12));
    assert_eq!(level.push_at(3, 30), Ok(()));
    assert_eq!(level.next_event(0), Some(1));
    assert_eq!(level.next_event(1), Some(1));
    assert_eq!(level.pop_at(0), None);
    assert_eq!(level.pop_at(1), Some(11));
    assert_eq!(level.next_event(0), Some(1));
    assert_eq!(level.pop_at(1), Some(10));
    assert_eq!(level.next_event(2), Some(3));
    assert_eq!(level.pop_at(1), None);
    assert_eq!(level.pop_at(3), Some(30));
    assert_eq!(level.next_event(3), None);
}

#[test]
fn a_bucket_is_replaced_whole() {
    let mut level = Level::<VecDeque<char>>::new(64);
    level.push_at(63, 'x').unwrap();
    level.push_at(63, 'y').unwrap();
    level.push_at(5, 'z').unwrap();
    let mut taken = level.replace_slot(63, VecDeque::new());
    assert_eq!(level.next_event(0), Some(5));
    assert_eq!(level.pop_at(63), None);
    assert_eq!(SlotLike::size(&taken), 2);
    assert_eq!(SlotLike::pop(&mut taken), Some('x'));
    assert_eq!(SlotLike::pop(&mut taken), Some('y'));
    let empty = level.replace_slot(0, VecDeque::new());
    assert_eq!(SlotLike::size(&empty), 0);
    assert_eq!(level.next_event(0), Some(5));
}

#[test]
fn draining_goes_bucket_by_bucket() {
    let mut level = Level::<BoundedSlot<u32, 4>>::new(4);
    level.push_at(0, 1).unwrap();
    level.push_at(2, 2).unwrap();
    level.push_at(2, 3).unwrap();
    level.push_at(3, 4).unwrap();
    assert_eq!(level.drain_until(0), vec![]);
    assert_eq!(level.drain_until(3), vec![1, 3, 2]);
    assert_eq!(level.next_event(0), Some(3));
    assert_eq!(level.drain_until(3), vec![]);
    assert_eq!(level.drain(), vec![4]);
    assert_eq!(level.next_event(0), None);
    assert_eq!(level.drain(), vec![]);

    let mut fifo = Level::<VecDeque<u32>>::new(2);
    fifo.push_at(1, 7).unwrap();
    fifo.push_at(1, 8).unwrap();
    fifo.push_at(0, 9).unwrap();
    assert_eq!(fifo.drain_until(200), vec![9, 7, 8]);
}

#[test]
fn draining_one_item_at_a_time() {
    let mut level = Level::<BoundedSlot<u32, 4>>::new(8);
    level.push_at(2, 20).unwrap();
    level.push_at(2, 21).unwrap();
    level.push_at(5, 50).unwrap();
    assert_eq!(level.drain_next(2), None);
    assert_eq!(level.drain_next(3), Some(21));
    assert_eq!(level.drain_next(3), Some(20));
    assert_eq!(level.drain_next(3), None);
    assert_eq!(level.drain_next(5), None);
    assert_eq!(level.drain_next(6), Some(50));
    assert_eq!(level.drain_next(64), None);
}
