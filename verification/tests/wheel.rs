use std::collections::VecDeque;
use wheelqueue::timing_wheel::bucket::BoundedSlot;
use wheelqueue::timing_wheel::hierarchical::{BoundedWheel, VecDequeWheel, Wheel};
use wheelqueue::timing_wheel::position::{first_tick_of, index_of, locate, width_of};

#[test]
fn hierarchical_basic() {
    let mut wheel = BoundedWheel::<usize, 16>::new(0);
    assert_eq!(wheel.min_next_event(), None);
    wheel.schedule(5, 1).unwrap();
    assert_eq!(wheel.min_next_event(), Some(5));
    wheel.schedule(6, 2).unwrap();
    wheel.schedule(89, 3).unwrap();
    wheel.schedule(100, 4).unwrap();
    wheel.schedule(90, 5).unwrap();
    wheel.schedule(129, 6).unwrap();
    wheel.schedule(170, 7).unwrap();
    assert_eq!(wheel.min_next_event(), Some(5));

    wheel.fast_forward(2, |_, _| panic!());
    wheel.fast_forward(4, |_, _| panic!());
    wheel.fast_forward(5, |item, at| {
        println!("{} @ {}", item, at);
        if item != 1 || at != 5 {
            panic!();
        }
    });
    assert_eq!(wheel.min_next_event(), Some(6));

    wheel.fast_forward(6, |item, at| {
        println!("{} @ {}", item, at);
        if item != 2 || at != 6 {
            panic!();
        }
    });
    assert_eq!(wheel.min_next_event(), Some(64));

    wheel.fast_forward(64, |_, _| panic!());
    assert_eq!(wheel.min_next_event(), Some(89));
    wheel.fast_forward(89, |item, at| {
        println!("{} @ {}", item, at);
        if item != 3 || at != 89 {
            panic!();
        }
    });

    assert_eq!(wheel.min_next_event(), Some(90));
    wheel.fast_forward(200, |item, at| {
        println!("{} @ {}", item, at);
    });
}

#[test]
fn advance_hands_out_what_is_due() {
    let mut wheel = BoundedWheel::<usize, 16>::new(0);
    for (tick, payload) in [(5, 1), (6, 2), (89, 3), (100, 4), (90, 5), (129, 6), (170, 7)] {
        assert_eq!(wheel.schedule(tick, payload), Ok(()));
    }
    assert_eq!(wheel.min_next_event(), Some(5));
    assert_eq!(wheel.advance(5), vec![(1, 5)]);
    assert_eq!(wheel.elapsed(), 5);
    assert_eq!(wheel.min_next_event(), Some(6));
    assert_eq!(wheel.advance(6), vec![(2, 6)]);
    assert_eq!(wheel.min_next_event(), Some(64));
    assert_eq!(wheel.advance(64), vec![]);
    assert_eq!(wheel.elapsed(), 64);
    assert_eq!(wheel.min_next_event(), Some(89));
    assert_eq!(wheel.advance(89), vec![(3, 89)]);
    assert_eq!(wheel.min_next_event(), Some(90));
    assert_eq!(wheel.advance(200), vec![(5, 90), (4, 100), (7, 170), (6, 129)]);
    assert_eq!(wheel.elapsed(), 200);
    assert_eq!(wheel.min_next_event(), None);
}

#[test]
fn the_sink_sees_what_advance_hands_out() {
    let mut wheel = VecDequeWheel::<char>::new(0);
    wheel.schedule(3, 'a').unwrap();
    wheel.schedule(70, 'b').unwrap();
    wheel.schedule(71, 'c').unwrap();
    wheel.schedule(5000, 'd').unwrap();
    let mut seen = Vec::new();
    wheel.fast_forward(71, |payload, tick| seen.push((payload, tick)));
    assert_eq!(seen, vec![('a', 3), ('b', 70), ('c', 71)]);
    assert_eq!(wheel.elapsed(), 71);
    let mut rest = Vec::new();
    wheel.fast_forward(6000, |payload, tick| rest.push((payload, tick)));
    assert_eq!(rest, vec![('d', 5000)]);
    assert_eq!(wheel.min_next_event(), None);
}

#[test]
fn a_step_of_nothing_delivers_nothing() {
    let mut wheel = BoundedWheel::<u8, 4>::new(10);
    assert_eq!(wheel.elapsed(), 10);
    assert_eq!(wheel.advance(10), vec![]);
    assert_eq!(wheel.schedule(10, 1), Ok(()));
    assert_eq!(wheel.schedule(12, 2), Ok(()));
    assert_eq!(wheel.advance(10), vec![]);
    assert_eq!(wheel.elapsed(), 10);
    assert_eq!(wheel.min_next_event(), Some(10));
    wheel.fast_forward(10, |_, _| panic!());
    assert_eq!(wheel.advance(11), vec![(1, 10)]);
    assert_eq!(wheel.advance(11), vec![]);
    assert_eq!(wheel.advance(12), vec![(2, 12)]);
}

#[test]
fn a_tick_in_the_past_is_handed_back() {
    let mut wheel = BoundedWheel::<&str, 4>::new(100);
    assert_eq!(wheel.schedule(99, "late"), Err("late"));
    assert_eq!(wheel.schedule(0, "later"), Err("later"));
    assert_eq!(wheel.min_next_event(), None);
    assert_eq!(wheel.schedule(100, "now"), Ok(()));
    assert_eq!(wheel.schedule(101, "soon"), Ok(()));
    assert_eq!(wheel.advance(150), vec![("now", 100), ("soon", 101)]);
    assert_eq!(wheel.schedule(150, "again"), Ok(()));
    assert_eq!(wheel.schedule(149, "missed"), Err("missed"));
}

#[test]
fn a_full_bucket_hands_the_payload_back() {
    let mut wheel = BoundedWheel::<u32, 1>::new(0);
    assert_eq!(wheel.schedule(65, 1), Ok(()));
    assert_eq!(wheel.schedule(66, 2), Err(2));
    assert_eq!(wheel.schedule(130, 3), Ok(()));
    assert_eq!(wheel.schedule(3, 4), Ok(()));
    assert_eq!(wheel.schedule(3, 5), Err(5));
    assert_eq!(wheel.advance(64), vec![(4, 3)]);
    assert_eq!(wheel.schedule(66, 2), Ok(()));
    assert_eq!(wheel.advance(200), vec![(1, 65), (2, 66), (3, 130)]);
}

#[test]
fn the_next_event_is_never_overestimated() {
    let mut wheel = VecDequeWheel::<u8>::new(0);
    wheel.schedule(100, 1).unwrap();
    assert_eq!(wheel.min_next_event(), Some(64));
    wheel.schedule(5000, 2).unwrap();
    assert_eq!(wheel.min_next_event(), Some(64));
    assert_eq!(wheel.advance(64), vec![]);
    assert_eq!(wheel.min_next_event(), Some(100));
    assert_eq!(wheel.advance(100), vec![(1, 100)]);
    assert_eq!(wheel.min_next_event(), Some(4096));
    assert_eq!(wheel.advance(4096), vec![]);
    assert_eq!(wheel.min_next_event(), Some(4992));
    assert_eq!(wheel.advance(4992), vec![]);
    assert_eq!(wheel.min_next_event(), Some(5000));
    assert_eq!(wheel.advance(5000), vec![(2, 5000)]);
    assert_eq!(wheel.min_next_event(), None);
}

#[test]
fn one_bucket_keeps_its_own_order() {
    let mut stack = BoundedWheel::<char, 4>::new(0);
    stack.schedule(65, 'a').unwrap();
    stack.schedule(66, 'b').unwrap();
    stack.schedule(3, 'c').unwrap();
    stack.schedule(200, 'd').unwrap();
    assert_eq!(stack.advance(5000), vec![('c', 3), ('b', 66), ('a', 65), ('d', 200)]);

    let mut queue = VecDequeWheel::<char>::new(0);
    queue.schedule(65, 'a').unwrap();
    queue.schedule(66, 'b').unwrap();
    queue.schedule(3, 'c').unwrap();
    queue.schedule(200, 'd').unwrap();
    assert_eq!(queue.advance(5000), vec![('c', 3), ('a', 65), ('b', 66), ('d', 200)]);
}

#[test]
fn get_pos_follows_the_highest_differing_bit() {
    let mut wheel = BoundedWheel::<u8, 2>::new(0);
    assert_eq!(wheel.get_pos(0), Some((0, 0)));
    assert_eq!(wheel.get_pos(5), Some((0, 5)));
    assert_eq!(wheel.get_pos(63), Some((0, 63)));
    assert_eq!(wheel.get_pos(64), Some((1, 1)));
    assert_eq!(wheel.get_pos(89), Some((1, 1)));
    assert_eq!(wheel.get_pos(4095), Some((1, 63)));
    assert_eq!(wheel.get_pos(4096), Some((2, 1)));
    assert_eq!(wheel.get_pos((1usize << 48) - 1), Some((7, 63)));
    assert_eq!(wheel.advance(64), vec![]);
    assert_eq!(wheel.get_pos(3), None);
    assert_eq!(wheel.get_pos(63), None);
    assert_eq!(wheel.get_pos(64), Some((0, 0)));
    assert_eq!(wheel.get_pos(89), Some((0, 25)));
    assert_eq!(wheel.get_pos(128), Some((1, 2)));
}

#[test]
fn positions_are_computed_from_bits() {
    assert_eq!(locate(0, 89, 6), (1, 1));
    assert_eq!(locate(89, 200, 6), (1, 3));
    assert_eq!(locate(7, 7, 6), (0, 7));
    assert_eq!(locate(0, 7, 1), (2, 1));
    assert_eq!(locate(0, u64::MAX, 6), (10, 15));
    assert_eq!(locate(5, 4, 3), (0, 4));
    assert_eq!(locate(64, 89, 6), (0, 25));
    assert_eq!(locate(4096, 5000, 6), (1, 14));
    assert_eq!(locate(1 << 47, (1 << 48) - 1, 6), (7, 63));
    assert_eq!(index_of(200, 6, 1), 3);
    assert_eq!(index_of(200, 6, 0), 8);
    assert_eq!(index_of(0b101101, 2, 2), 0b10);
    assert_eq!(first_tick_of(6, 6, 1, 1), 64);
    assert_eq!(first_tick_of(4097, 6, 1, 14), 4992);
    assert_eq!(first_tick_of(4097, 6, 0, 1), 4097);
    assert_eq!(first_tick_of(89, 6, 0, 26), 90);
    assert_eq!(width_of(1), 2);
    assert_eq!(width_of(3), 8);
    assert_eq!(width_of(6), 64);
}

fn next_random(state: &mut u64) -> u64 {
    *state = state
        .wrapping_mul(6364136223846793005)
        .wrapping_add(1442695040888963407);
    *state >> 33
}

#[test]
fn everything_scheduled_is_delivered_once_and_on_time() {
    let mut state = 42u64;
    let mut wheel = Wheel::<usize, VecDeque<(usize, usize)>, 3, 2>::new(0);
    let mut pending: Vec<(usize, usize)> = Vec::new();
    let mut delivered = 0usize;
    let mut id = 0usize;
    let mut now = 0usize;
    while now < 63 {
        for _ in 0..(next_random(&mut state) % 4) {
            let tick = now + (next_random(&mut state) as usize) % (64 - now);
            assert_eq!(wheel.schedule(tick, id), Ok(()));
            pending.push((id, tick));
            id += 1;
        }
        if let Some(bound) = wheel.min_next_event() {
            for (_, tick) in pending.iter() {
                assert!(bound <= *tick);
            }
        } else {
            assert!(pending.is_empty());
        }
        let target = (now + (next_random(&mut state) as usize) % 5).min(63);
        let fired = wheel.advance(target);
        if target == now {
            assert!(fired.is_empty());
        } else {
            let mut expected: Vec<(usize, usize)> =
                pending.iter().copied().filter(|(_, tick)| *tick <= target).collect();
            pending.retain(|(_, tick)| *tick > target);
            let mut got = fired.clone();
            got.sort();
            expected.sort();
            assert_eq!(got, expected);
            delivered += fired.len();
        }
        now = target;
        assert_eq!(wheel.elapsed(), now);
    }
    assert!(pending.is_empty());
    assert_eq!(delivered, id);
    assert_eq!(wheel.min_next_event(), None);
}

#[test]
fn bounded_buckets_never_lose_an_item_in_a_cascade() {
    let mut state = 7u64;
    let mut wheel = Wheel::<usize, BoundedSlot<(usize, usize), 3>, 4, 3>::new(0);
    let mut accepted: Vec<(usize, usize)> = Vec::new();
    for id in 0..200usize {
        let tick = (next_random(&mut state) as usize) % 4096;
        match wheel.schedule(tick, id) {
            Ok(()) => accepted.push((id, tick)),
            Err(back) => assert_eq!(back, id),
        }
    }
    let mut got: Vec<(usize, usize)> = Vec::new();
    let mut now = 0usize;
    while now < 4095 {
        now = (now + 1 + (next_random(&mut state) as usize) % 300).min(4095);
        for item in wheel.advance(now) {
            assert!(item.1 <= now);
            got.push(item);
        }
    }
    got.sort();
    accepted.sort();
    assert_eq!(got, accepted);
}

#[test]
fn earlier_buckets_are_delivered_first() {
    let mut wheel = VecDequeWheel::<usize>::new(0);
    let ticks = [300usize, 7, 64, 4100, 63, 128, 4097, 1, 70000, 129, 65, 8191];
    for (id, tick) in ticks.iter().enumerate() {
        wheel.schedule(*tick, id).unwrap();
    }
    let fired = wheel.advance(100_000);
    let order: Vec<usize> = fired.iter().map(|item| item.1).collect();
    assert_eq!(
        order,
        vec![1, 7, 63, 64, 65, 128, 129, 300, 4100, 4097, 8191, 70000]
    );
}

#[test]
fn a_wheel_past_its_range_takes_nothing() {
    let mut wheel = BoundedWheel::<u8, 2>::new(1usize << 48);
    assert_eq!(wheel.elapsed(), 1usize << 48);
    assert_eq!(wheel.schedule(5, 1), Err(1));
    assert_eq!(wheel.schedule((1usize << 48) - 1, 2), Err(2));
    assert_eq!(wheel.min_next_event(), None);
}

#[test]
fn a_wheel_of_two_buckets_per_level() {
    let mut wheel = Wheel::<u8, VecDeque<(u8, usize)>, 5, 1>::new(0);
    for tick in 0..32usize {
        assert_eq!(wheel.schedule(31 - tick, tick as u8), Ok(()));
    }
    assert_eq!(wheel.min_next_event(), Some(0));
    assert_eq!(wheel.get_pos(16), Some((4, 1)));
    assert_eq!(wheel.get_pos(5), Some((2, 1)));
    let mut seen = Vec::new();
    for target in [1usize, 2, 3, 7, 8, 20, 31] {
        for (payload, tick) in wheel.advance(target) {
            assert_eq!(payload as usize, 31 - tick);
            assert!(tick <= target);
            seen.push(tick);
        }
        let next = wheel.min_next_event();
        if target < 31 {
            assert_eq!(next, Some(target + 1));
        } else {
            assert_eq!(next, None);
        }
    }
    seen.sort();
    assert_eq!(seen, (0..32usize).collect::<Vec<usize>>());
}

#[test]
fn a_rejected_schedule_changes_nothing() {
    let mut wheel = BoundedWheel::<u8, 1>::new(0);
    assert_eq!(wheel.schedule(700, 1), Ok(()));
    assert_eq!(wheel.schedule(701, 2), Err(2));
    assert_eq!(wheel.min_next_event(), Some(640));
    assert_eq!(wheel.advance(1000), vec![(1, 700)]);
    assert_eq!(wheel.min_next_event(), None);
}
