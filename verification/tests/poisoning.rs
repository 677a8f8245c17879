//! Error-path tests: a poisoned object-level lock fails every whole-map
//! operation, and in the fine-lock variant a poisoned association's own lock
//! fails the operations that visit it.

use thread_map::{ThreadMap, ThreadMapLockError, ThreadMapX};

#[test]
fn poisoned_map_fails_whole_map_operations() {
    let mut tm: ThreadMap<i64, _> = ThreadMap::new(|| 0i64);
    tm.set(1u64, 10);
    tm.poison();

    assert_eq!(Err(ThreadMapLockError), tm.fold(0i64, |z, (_, v)| z + v));
    assert_eq!(Err(ThreadMapLockError), tm.fold_values(0i64, |z, v| z + v));
    assert_eq!(Err(ThreadMapLockError), tm.probe());
    assert_eq!(Err(ThreadMapLockError), tm.drain());

    // A failed drain leaves the state in place; nothing was handed out.
    assert_eq!(Err(ThreadMapLockError), tm.drain());
}

#[test]
fn poisoned_map_fails_whole_map_operations_x() {
    let mut tm: ThreadMapX<i64, _> = ThreadMapX::new(|| 0i64);
    tm.set(1u64, 10);
    tm.poison();

    assert_eq!(Err(ThreadMapLockError), tm.fold(0i64, |z, (_, v)| z + v));
    assert_eq!(Err(ThreadMapLockError), tm.fold_values(0i64, |z, v| z + v));
    assert_eq!(Err(ThreadMapLockError), tm.probe());
    assert_eq!(Err(ThreadMapLockError), tm.drain());
}

#[test]
fn poisoned_entry_fails_visiting_operations_x() {
    let mut tm: ThreadMapX<i64, _> = ThreadMapX::new(|| 0i64);
    tm.set(1u64, 10);
    tm.set(2u64, 20);
    tm.poison_entry(2u64);

    assert_eq!(Err(ThreadMapLockError), tm.fold(0i64, |z, (_, v)| z + v));
    assert_eq!(Err(ThreadMapLockError), tm.fold_values(0i64, |z, v| z + v));
    assert_eq!(Err(ThreadMapLockError), tm.probe());

    // The untouched association still answers per-thread calls.
    assert_eq!(10, tm.get(1u64));
}

#[test]
fn poisoned_entry_drain_empties_but_errors_x() {
    let mut tm: ThreadMapX<i64, _> = ThreadMapX::new(|| 0i64);
    tm.set(1u64, 10);
    tm.set(2u64, 20);
    tm.poison_entry(2u64);

    // The map is emptied even though the poisoned association is reported.
    assert_eq!(Err(ThreadMapLockError), tm.drain());
    assert!(tm.probe().unwrap().is_empty());
    assert_eq!(Ok(0), tm.fold_values(0i64, |z, v| z + v));

    // A fresh association for the once-poisoned token works again.
    assert_eq!(0, tm.get(2u64));
}

#[test]
fn unpoisoned_map_reports_no_error() {
    let mut tm: ThreadMap<i64, _> = ThreadMap::new(|| 0i64);
    tm.set(1u64, 1);
    assert!(tm.fold_values(0i64, |z, v| z + v).is_ok());
    assert!(tm.probe().is_ok());
    assert!(tm.drain().is_ok());
}
