use std::cell::Cell;

use binding_generator::cache::MemoizeMap;

#[test]
fn compute_runs_at_most_once_per_key() {
    let calls = Cell::new(0u32);
    let mut cache: MemoizeMap<u64> = MemoizeMap::new();
    let first = *cache.get_or_compute(7, || {
        calls.set(calls.get() + 1);
        99
    });
    let second = *cache.get_or_compute(7, || {
        calls.set(calls.get() + 1);
        13
    });
    assert_eq!(first, 99);
    assert_eq!(second, 99);
    assert_eq!(calls.get(), 1);
}

#[test]
fn distinct_keys_compute_independently() {
    let mut cache: MemoizeMap<u64> = MemoizeMap::new();
    let a = *cache.get_or_compute(1, || 10);
    let b = *cache.get_or_compute(2, || 20);
    assert_eq!(a, 10);
    assert_eq!(b, 20);
    assert_eq!(*cache.get_or_compute(1, || 0), 10);
    assert_eq!(*cache.get_or_compute(2, || 0), 20);
}

#[test]
fn placeholder_marks_key_in_progress_until_finished() {
    let mut cache: MemoizeMap<u64> = MemoizeMap::new();
    assert!(!cache.is_pending(5));
    assert!(!cache.contains(5));
    cache.begin(5);
    assert!(cache.is_pending(5));
    assert!(!cache.contains(5));
    cache.finish(5, 50);
    assert!(!cache.is_pending(5));
    assert!(cache.contains(5));
    assert_eq!(cache.get(5).copied(), Some(50));
}

#[test]
fn get_of_absent_key_is_none() {
    let cache: MemoizeMap<u64> = MemoizeMap::new();
    assert!(cache.get(3).is_none());
}
