//! The lifecycle scenarios: many worker tokens updating their own values
//! while the initiating token updates its own, then probe, fold, and drain.

use std::collections::HashMap;
use thread_map::thread_map::ThreadMap as CompatThreadMap;
use thread_map::{ThreadMap, ThreadMapX};

const NTHREADS: i32 = 20;
const NITER: i32 = 10;

fn update_value(p: (i32, i32), i: i32) -> (i32, i32) {
    (i, p.1 + i)
}

#[test]
fn test_lifecycle() {
    let mut tm: ThreadMap<(i32, i32), _> = ThreadMap::new(|| (0, 0));

    for round in 0..NITER {
        for i in 0..NTHREADS {
            let tid = i as u64;
            tm.with_mut(tid, move |p: (i32, i32)| (update_value(p, i), ()));
        }
        if round == 0 {
            let probed = tm.probe().unwrap().into_values().collect::<HashMap<_, _>>();
            println!("probed={probed:?}");
        }
    }
    for i in 0..NTHREADS {
        let value = tm.get(i as u64);
        assert_eq!((i, i * NITER), value);
    }

    let main_tid = NTHREADS as u64;
    for _ in 0..NITER {
        tm.with_mut(main_tid, move |p: (i32, i32)| (update_value(p, NTHREADS), ()));
    }

    let probed = tm.probe().unwrap().into_values().collect::<HashMap<_, _>>();
    println!("probed={probed:?}");

    let expected = (0..=NTHREADS)
        .map(|i| (i, i * NITER))
        .collect::<HashMap<_, _>>();
    let expected_sum = expected.values().sum::<i32>();

    let sum = tm.fold_values(0, |z, (_, v)| z + v).unwrap();
    assert_eq!(expected_sum, sum);

    let probed = tm.probe().unwrap().into_values().collect::<HashMap<_, _>>();
    println!("probed={probed:?}");
    assert_eq!(expected, probed);

    let dumped = tm.drain().unwrap().into_values().collect::<HashMap<_, _>>();
    assert_eq!(expected, dumped);
}

#[test]
fn thread_map_x_test_lifecycle() {
    let mut tm: ThreadMapX<(i32, i32), _> = ThreadMapX::new(|| (0, 0));

    for round in 0..NITER {
        for i in 0..NTHREADS {
            let tid = i as u64;
            tm.with_mut(tid, move |p: (i32, i32)| (update_value(p, i), ()));
        }
        if round == 0 {
            let probed = tm.probe().unwrap().into_values().collect::<HashMap<_, _>>();
            println!("probed={probed:?}");
        }
    }
    for i in 0..NTHREADS {
        let value = tm.get(i as u64);
        assert_eq!((i, i * NITER), value);
    }

    let main_tid = NTHREADS as u64;
    for _ in 0..NITER {
        tm.with_mut(main_tid, move |p: (i32, i32)| (update_value(p, NTHREADS), ()));
    }

    let probed = tm.probe().unwrap().into_values().collect::<HashMap<_, _>>();
    println!("probed={probed:?}");

    let expected = (0..=NTHREADS)
        .map(|i| (i, i * NITER))
        .collect::<HashMap<_, _>>();
    let expected_sum = expected.values().sum::<i32>();

    let sum = tm.fold_values(0, |z, (_, v)| z + v).unwrap();
    assert_eq!(expected_sum, sum);

    let probed = tm.probe().unwrap().into_values().collect::<HashMap<_, _>>();
    println!("probed={probed:?}");
    assert_eq!(expected, probed);

    let dumped = tm.drain().unwrap().into_values().collect::<HashMap<_, _>>();
    assert_eq!(expected, dumped);
}

#[test]
fn test() {
    let mut tm: CompatThreadMap<(i32, i32), _> = CompatThreadMap::new(|| (0, 0));

    for i in 0..NTHREADS {
        for _ in 0..NITER {
            tm.with_mut(i as u64, move |p: (i32, i32)| (update_value(p, i), ()));
        }
    }
    let probed = tm.probe().unwrap().into_values().collect::<HashMap<_, _>>();
    println!("probed={probed:?}");

    let expected = (0..NTHREADS)
        .map(|i| (i, i * NITER))
        .collect::<HashMap<_, _>>();
    let expected_sum = expected.values().sum::<i32>();

    let sum = tm.fold_values(0, |z, (_, v)| z + v).unwrap();
    assert_eq!(expected_sum, sum);
    assert_eq!(expected, probed);

    let dumped = tm.drain().unwrap().into_values().collect::<HashMap<_, _>>();
    assert_eq!(expected, dumped);
}

#[test]
fn test_set() {
    let mut tm: ThreadMap<i32, _> = ThreadMap::new(|| 0);

    for i in 0..NTHREADS {
        let tid = i as u64;
        tm.set(tid, i);
        assert_eq!(i, tm.get(tid));
    }

    let expected_sum = (0..NTHREADS).sum::<i32>();
    let sum = tm.fold_values(0, |z, v| z + v).unwrap();
    assert_eq!(expected_sum, sum);
}

#[test]
fn thread_map_x_test_set() {
    let mut tm: ThreadMapX<i32, _> = ThreadMapX::new(|| 0);

    for i in 0..NTHREADS {
        let tid = i as u64;
        tm.set(tid, i);
        assert_eq!(i, tm.get(tid));
    }

    let expected_sum = (0..NTHREADS).sum::<i32>();
    let sum = tm.fold_values(0, |z, v| z + v).unwrap();
    assert_eq!(expected_sum, sum);
}
