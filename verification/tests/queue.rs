use core::time::Duration;
use wheelqueue::queue::nonblocking::{
    pop_admits, push_admits, slot_of, Queue, StaticQueue, StaticSpinQueue,
};
use wheelqueue::queue::sequencer::{CondvarSequencer, Sequencer, SpinSequencer, WaitError};
use wheelqueue::queue::slot::{turn_to_pop, turn_to_push, Slot};

#[test]
fn nonblocking_basic() {
    let mut queue: StaticSpinQueue<usize, 4> = Default::default();

    queue.producer().push(1).unwrap();
    queue.producer().push(2).unwrap();
    queue.producer().push(3).unwrap();
    queue.producer().push(4).unwrap();
    let data = queue.producer().push(5).unwrap_err();
    assert_eq!(data, 5);

    assert_eq!(queue.consumer().pop(), Some(1));
    assert_eq!(queue.consumer().pop(), Some(2));
    assert_eq!(queue.consumer().pop(), Some(3));

    queue.producer().push(5).unwrap();
    queue.producer().push(6).unwrap();
    queue.producer().push(7).unwrap();
    let data = queue.producer().push(8).unwrap_err();
    assert_eq!(data, 8);

    assert_eq!(queue.consumer().pop(), Some(4));
    assert_eq!(queue.consumer().pop(), Some(5));
    assert_eq!(queue.consumer().pop(), Some(6));
    assert_eq!(queue.consumer().pop(), Some(7));
    assert_eq!(queue.consumer().pop(), None);
    assert_eq!(queue.consumer().pop(), None);
    assert_eq!(queue.consumer().pop(), None);

    queue.producer().push(8).unwrap();
    assert_eq!(queue.consumer().pop(), Some(8));
}

#[test]
fn handles_keep_their_queue() {
    let mut queue: StaticSpinQueue<u32, 2> = Default::default();
    {
        let mut producer = queue.producer();
        assert_eq!(producer.push(10), Ok(()));
        assert_eq!(producer.push(11), Ok(()));
        assert_eq!(producer.push(12), Err(12));
    }
    let mut consumer = queue.consumer();
    assert_eq!(consumer.pop(), Some(10));
    assert_eq!(consumer.pop(), Some(11));
    assert_eq!(consumer.pop(), None);
}

#[test]
fn items_leave_in_the_order_of_entry() {
    let mut queue: StaticSpinQueue<usize, 128> = Default::default();
    let mut next_in = 0usize;
    let mut next_out = 0usize;
    while next_out < 10_000 {
        while next_in < 10_000 && queue.shared_push(next_in).is_ok() {
            next_in += 1;
        }
        assert!(next_in - next_out <= 128);
        let burst = 1 + next_out % 97;
        for _ in 0..burst {
            match queue.shared_pop() {
                Some(item) => {
                    assert_eq!(item, next_out);
                    next_out += 1;
                }
                None => assert_eq!(next_in, next_out),
            }
        }
    }
    assert_eq!(next_in, 10_000);
    assert_eq!(queue.shared_pop(), None);
}

#[test]
fn every_pushed_item_is_popped_once() {
    let mut queue: StaticQueue<usize, CondvarSequencer, 8> = Default::default();
    let mut seen = [0u8; 64];
    let mut accepted = 0usize;
    for round in 0..16 {
        for key in 0..64 {
            if queue.shared_push(key).is_ok() {
                accepted += 1;
            } else {
                let got = queue.shared_pop().unwrap();
                seen[got] += 1;
                queue.shared_push(key).unwrap();
                accepted += 1;
            }
        }
        if round % 3 == 0 {
            while let Some(got) = queue.shared_pop() {
                seen[got] += 1;
            }
        }
    }
    while let Some(got) = queue.shared_pop() {
        seen[got] += 1;
    }
    assert_eq!(accepted, 16 * 64);
    for key in 0..64 {
        assert_eq!(seen[key], 16);
    }
}

#[test]
fn a_ring_of_three_goes_round() {
    let mut queue: StaticSpinQueue<char, 3> = Default::default();
    assert_eq!(queue.shared_push('a'), Ok(()));
    assert_eq!(queue.shared_push('b'), Ok(()));
    assert_eq!(queue.shared_pop(), Some('a'));
    assert_eq!(queue.shared_push('c'), Ok(()));
    assert_eq!(queue.shared_push('d'), Ok(()));
    assert_eq!(queue.shared_push('e'), Err('e'));
    assert_eq!(queue.shared_pop(), Some('b'));
    assert_eq!(queue.shared_pop(), Some('c'));
    assert_eq!(queue.shared_push('e'), Ok(()));
    assert_eq!(queue.shared_pop(), Some('d'));
    assert_eq!(queue.shared_pop(), Some('e'));
    assert_eq!(queue.shared_pop(), None);
}

#[test]
fn a_queue_without_slots_is_full_and_empty() {
    let mut queue: StaticSpinQueue<u8, 0> = Default::default();
    assert_eq!(queue.shared_push(1), Err(1));
    assert_eq!(queue.shared_pop(), None);
}

#[test]
fn a_queue_of_one_slot() {
    let mut queue: StaticSpinQueue<u8, 1> = Default::default();
    for round in 0..5u8 {
        assert_eq!(queue.shared_push(round), Ok(()));
        assert_eq!(queue.shared_push(100), Err(100));
        assert_eq!(queue.shared_pop(), Some(round));
        assert_eq!(queue.shared_pop(), None);
    }
}

#[test]
fn tickets_are_admitted_by_signed_difference() {
    assert!(push_admits(0, 0, 4));
    assert!(push_admits(3, 0, 4));
    assert!(!push_admits(4, 0, 4));
    assert!(!push_admits(9, 5, 4));
    assert!(push_admits(8, 5, 4));
    assert!(push_admits(5, 7, 4));
    assert!(!push_admits(0, 0, 0));
    assert!(push_admits(0, 1, 0));
    assert!(push_admits(usize::MAX, 0, usize::MAX) == false);
    assert!(pop_admits(0, 1));
    assert!(!pop_admits(1, 1));
    assert!(!pop_admits(2, 1));
}

#[test]
fn a_ticket_names_slot_and_generation() {
    assert_eq!(slot_of(0, 4), (0, 0));
    assert_eq!(slot_of(3, 4), (3, 0));
    assert_eq!(slot_of(4, 4), (0, 1));
    assert_eq!(slot_of(10, 4), (2, 2));
    assert_eq!(slot_of(7, 1), (0, 7));
}

#[test]
fn a_slot_alternates_push_and_pop() {
    let mut slot: Slot<&str, SpinSequencer> = Default::default();
    slot.push("first", 0);
    assert_eq!(slot.pop(0), "first");
    slot.push("second", 1);
    assert_eq!(slot.pop(1), "second");
    let mut timed: Slot<u64, CondvarSequencer> = Default::default();
    timed.push(7, 0);
    assert_eq!(timed.pop(0), 7);
}

#[test]
fn spin_sequencer_takes_no_deadline() {
    let mut seq = SpinSequencer::default();
    assert_eq!(seq.wait_until(0, None), Ok(()));
    assert_eq!(
        seq.wait_until(0, Some(Duration::from_millis(1))),
        Err(WaitError::UnsupportedTimeout)
    );
    assert_eq!(
        seq.wait_until(3, Some(Duration::from_millis(1))),
        Err(WaitError::UnsupportedTimeout)
    );
    seq.update_next(3);
    assert_eq!(seq.wait_until(3, None), Ok(()));
}

#[test]
fn condvar_sequencer_times_out() {
    let mut seq = CondvarSequencer::default();
    assert_eq!(seq.wait_until(0, None), Ok(()));
    assert_eq!(seq.wait_until(0, Some(Duration::from_millis(1))), Ok(()));
    assert_eq!(
        seq.wait_until(1, Some(Duration::from_millis(1))),
        Err(WaitError::TimedOut)
    );
    seq.update_next(5);
    assert_eq!(seq.wait_until(5, Some(Duration::from_millis(1))), Ok(()));
    seq.update_next(2);
    assert_eq!(seq.wait_until(2, None), Ok(()));
    assert_eq!(
        seq.wait_until(5, Some(Duration::from_millis(1))),
        Err(WaitError::TimedOut)
    );
}

#[test]
fn a_generation_has_two_turns() {
    assert_eq!(turn_to_push(0), 0);
    assert_eq!(turn_to_pop(0), 1);
    assert_eq!(turn_to_push(1), 2);
    assert_eq!(turn_to_pop(7), 15);
    assert_eq!(turn_to_push(usize::MAX / 2), usize::MAX - 1);
    assert_eq!(turn_to_pop(usize::MAX / 2), usize::MAX);
}
