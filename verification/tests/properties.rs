//! Scenario tests for the map's laws: exclusivity of per-thread updates,
//! lazy initialization running once per token, fold completeness, drain
//! resetting the map, and probe being non-destructive.

use std::cell::Cell;
use std::collections::HashMap;
use thread_map::{ThreadMap, ThreadMapX};

#[test]
fn exclusivity_interleaved_updates() {
    let mut tm: ThreadMap<i64, _> = ThreadMap::new(|| 0i64);
    let t1 = 1u64;
    let t2 = 2u64;
    for step in 0..50i64 {
        tm.with_mut(t1, move |v| (v + 1, ()));
        let seen = tm.get(t2);
        assert_eq!(seen, step * 100);
        tm.with_mut(t2, move |v| (v + 100, ()));
        let seen = tm.get(t1);
        assert_eq!(seen, step + 1);
    }
    assert_eq!(50, tm.get(t1));
    assert_eq!(5000, tm.get(t2));
}

#[test]
fn lazy_init_runs_once_per_token() {
    let runs = Cell::new(0u32);
    let mut tm: ThreadMap<i64, _> = ThreadMap::new(|| {
        runs.set(runs.get() + 1);
        7i64
    });
    assert_eq!(0, runs.get());

    for _ in 0..5 {
        tm.with_mut(3u64, |v| (v + 1, ()));
    }
    assert_eq!(1, runs.get());
    assert_eq!(12, tm.get(3u64));
    assert_eq!(1, runs.get());

    tm.set(4u64, 0);
    assert_eq!(2, runs.get());
    tm.with(4u64, |v| assert_eq!(0, *v));
    assert_eq!(2, runs.get());

    tm.drain().unwrap();
    tm.with_mut(3u64, |v| (v + 1, ()));
    assert_eq!(3, runs.get());
    assert_eq!(8, tm.get(3u64));
}

#[test]
fn lazy_init_runs_once_per_token_x() {
    let runs = Cell::new(0u32);
    let mut tm: ThreadMapX<i64, _> = ThreadMapX::new(|| {
        runs.set(runs.get() + 1);
        7i64
    });
    for _ in 0..5 {
        tm.with_mut(3u64, |v| (v + 1, ()));
    }
    assert_eq!(1, runs.get());
    tm.with_mut(9u64, |v| (v, v));
    assert_eq!(2, runs.get());
}

#[test]
fn fold_completeness_counts_and_sums() {
    let n: i64 = 5;
    let m: i64 = 4;
    let mut tm: ThreadMap<i64, _> = ThreadMap::new(|| 0i64);
    for round in 0..m {
        let _ = round;
        for i in 0..n {
            tm.with_mut(i as u64, move |v| (v + i, ()));
        }
    }
    let total = tm.fold_values(0i64, |z, v| z + v).unwrap();
    let closed_form = m * (n - 1) * n / 2;
    assert_eq!(closed_form, total);
    assert_eq!(n as usize, tm.probe().unwrap().len());

    let drained = tm.drain().unwrap();
    assert_eq!(n as usize, drained.len());
    assert_eq!(closed_form, drained.values().sum::<i64>());
}

#[test]
fn fold_visits_keys_and_values() {
    let mut tm: ThreadMap<i64, _> = ThreadMap::new(|| 0i64);
    tm.set(2u64, 30);
    tm.set(5u64, 400);
    let (key_sum, value_sum) = tm
        .fold((0u64, 0i64), |(ks, vs), (k, v)| (ks + k, vs + *v))
        .unwrap();
    assert_eq!(7, key_sum);
    assert_eq!(430, value_sum);
}

#[test]
fn fold_on_empty_map_returns_seed() {
    let tm: ThreadMap<i64, _> = ThreadMap::new(|| 0i64);
    assert_eq!(41, tm.fold(41, |z, _| z).unwrap());
    assert_eq!(42, tm.fold_values(42, |z, _| z).unwrap());
    assert!(tm.probe().unwrap().is_empty());
}

#[test]
fn drain_empties_and_reinitializes() {
    let mut tm: ThreadMap<i64, _> = ThreadMap::new(|| 5i64);
    tm.with_mut(1u64, |v| (v + 1, ()));
    tm.with_mut(2u64, |v| (v + 2, ()));

    let drained = tm.drain().unwrap();
    assert_eq!(2, drained.len());
    assert_eq!(6, drained[&1u64]);
    assert_eq!(7, drained[&2u64]);

    assert!(tm.probe().unwrap().is_empty());
    assert_eq!(0, tm.fold_values(0i64, |z, v| z + v).unwrap());

    assert_eq!(5, tm.get(1u64));
    let drained = tm.drain().unwrap();
    assert_eq!(1, drained.len());
}

#[test]
fn drain_empties_and_reinitializes_x() {
    let mut tm: ThreadMapX<i64, _> = ThreadMapX::new(|| 5i64);
    tm.with_mut(1u64, |v| (v + 1, ()));
    tm.with_mut(2u64, |v| (v + 2, ()));

    let drained = tm.drain().unwrap();
    assert_eq!(2, drained.len());
    assert_eq!(6, drained[&1u64]);
    assert_eq!(7, drained[&2u64]);

    assert!(tm.probe().unwrap().is_empty());
    assert_eq!(5, tm.get(1u64));
}

#[test]
fn probe_is_non_destructive() {
    let mut tm: ThreadMap<i64, _> = ThreadMap::new(|| 0i64);
    tm.set(1u64, 10);
    tm.set(2u64, 20);
    tm.set(3u64, 30);

    let first = tm.probe().unwrap();
    let second = tm.probe().unwrap();
    assert_eq!(first, second);
    assert_eq!(3, first.len());
    assert_eq!(10, first[&1u64]);

    let still = tm.fold_values(0i64, |z, v| z + v).unwrap();
    assert_eq!(60, still);
}

#[test]
fn probe_is_non_destructive_x() {
    let mut tm: ThreadMapX<i64, _> = ThreadMapX::new(|| 0i64);
    tm.set(1u64, 10);
    tm.set(2u64, 20);

    let first = tm.probe().unwrap();
    let second = tm.probe().unwrap();
    assert_eq!(first, second);
    assert_eq!(30, tm.fold_values(0i64, |z, v| z + v).unwrap());
}

#[test]
fn set_overwrites_existing_value() {
    let mut tm: ThreadMap<i64, _> = ThreadMap::new(|| 0i64);
    tm.set(8u64, 1);
    tm.set(8u64, 2);
    tm.set(8u64, 3);
    assert_eq!(3, tm.get(8u64));
    let snapshot = tm.probe().unwrap();
    assert_eq!(1, snapshot.len());
    assert_eq!(3, snapshot[&8u64]);
}

#[test]
fn concrete_scenario_twenty_workers() {
    let workers: i64 = 20;
    let iters: i64 = 10;
    let mut tm: ThreadMap<i64, _> = ThreadMap::new(|| 0i64);

    for round in 0..iters {
        let _ = round;
        for i in 0..workers {
            tm.with_mut(i as u64, move |v| (v + i, ()));
        }
        let main_tid = workers as u64;
        tm.with_mut(main_tid, move |v| (v + workers, ()));
    }

    let sum = tm.fold_values(0i64, |z, v| z + v).unwrap();
    assert_eq!(2100, sum);

    let drained = tm.drain().unwrap();
    assert_eq!(21, drained.len());
    for i in 0..workers {
        assert_eq!(i * 10, drained[&(i as u64)]);
    }
    assert_eq!(200, drained[&(workers as u64)]);
}
