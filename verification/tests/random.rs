use rand::thread_rng;
use rand_distr::{Binomial, ChiSquared, Distribution};
use std::collections::HashMap;
use wheelqueue::timing_wheel::hierarchical::VecDequeWheel;

#[test]
fn random() {
    let distr = ChiSquared::new(65536f64).unwrap();
    let rng = thread_rng();
    let mut generated = distr
        .sample_iter(rng)
        .take(65536)
        .enumerate()
        .map(|(idx, val)| (val.round() as usize + 1, idx))
        .collect::<Vec<(usize, usize)>>();

    generated.sort();
    println!("Pairs generated");

    let mut wheel = VecDequeWheel::new(0);

    let mut max = 0;
    println!("First 10 timings:");
    for (moment, idx) in generated.iter() {
        if *idx < 10 {
            println!("{} -> {}", idx, moment);
        }

        wheel.schedule(*moment, *idx).unwrap();
        if *moment > max {
            max = *moment;
        }
    }

    let mut rng = thread_rng();
    let pick = Binomial::new(1, 0.3).unwrap();
    let mut pending = HashMap::new();
    let mut last_val = 1;
    for (val, idx) in generated.into_iter() {
        assert!(last_val <= val);
        if last_val != val {
            if pick.sample(&mut rng) == 1 {
                println!("Fast forward to {}", last_val);
                wheel.fast_forward(last_val, |item, at| {
                    let removed = pending.remove(&item);
                    if removed != Some(at) {
                        panic!("Invalid timing! Expected {}, got {:?}", at, removed);
                    }
                });

                if pending.len() != 0 {
                    panic!("Schedule lost!");
                }
            }

            last_val = val;
        }

        assert!(wheel.min_next_event() <= Some(val));
        pending.insert(idx, val);
    }

    wheel.fast_forward(max, |item, at| {
        if pending.remove(&item) != Some(at) {
            panic!("Invalid timing!");
        }
    });

    if pending.len() != 0 {
        panic!("Schedule lost!");
    }

    assert_eq!(wheel.min_next_event(), None);
}
