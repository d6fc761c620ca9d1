use conc::cache::Cache;
use conc::spinlock::Spinlock;

/// A cache of two slots holding three inserts of equal weight gives up the
/// first (smallest) key: a later lookup of it finds nothing.
#[test]
fn lowest_weight_is_evicted() {
    let mut cache: Cache<&str> = Cache::new(2, 4);
    cache.insert(1, "A", 1);
    cache.insert(2, "B", 1);
    cache.insert(3, "C", 1);
    assert_eq!(cache.get(1, 0), None);
    assert_eq!(cache.get(2, 0), Some(&"B"));
    assert_eq!(cache.get(3, 0), Some(&"C"));
}

/// Weights rank the candidates: the lightest entry goes, not the oldest.
#[test]
fn heavier_entries_survive() {
    let mut cache: Cache<&str> = Cache::new(2, 4);
    cache.insert(1, "A", 5);
    cache.insert(2, "B", 1);
    cache.insert(3, "C", 1);
    // Key 2 was the lightest; key 1 survived on weight.
    assert_eq!(cache.get(1, 0), Some(&"A"));
    assert_eq!(cache.get(2, 0), None);
    assert_eq!(cache.get(3, 0), Some(&"C"));
}

/// Lookups bump an entry's weight, changing who is evicted next.
#[test]
fn get_bumps_weight() {
    let mut cache: Cache<&str> = Cache::new(2, 4);
    cache.insert(1, "A", 1);
    cache.insert(2, "B", 2);
    assert_eq!(cache.get(1, 10), Some(&"A"));
    cache.insert(3, "C", 1);
    // Key 2 is now the lightest: 2 against 11.
    assert_eq!(cache.get(1, 0), Some(&"A"));
    assert_eq!(cache.get(2, 0), None);
}

/// Inserting an already-cached key replaces the value in place and evicts
/// nothing.
#[test]
fn insert_replaces_in_place() {
    let mut cache: Cache<&str> = Cache::new(2, 4);
    cache.insert(1, "A", 1);
    cache.insert(2, "B", 1);
    cache.insert(2, "B2", 1);
    assert_eq!(cache.get(1, 0), Some(&"A"));
    assert_eq!(cache.get(2, 0), Some(&"B2"));
}

/// Rotating the window far enough subtracts an old frame's counts: an
/// entry popular long ago decays back into an eviction candidate.
#[test]
fn frame_rotation_decays_weight() {
    let mut cache: Cache<&str> = Cache::new(2, 2);
    cache.insert(1, "A", 0);
    cache.insert(2, "B", 5);
    cache.access(1, 10);
    // Weights now: 1 -> 10, 2 -> 5; the access is tallied in frame 0.
    cache.next_cache_frame();
    // The window grew to its two frames; nothing expired yet.
    cache.next_cache_frame();
    // The window wrapped: frame 0 expired, taking its 10 with it.
    // Weights now: 1 -> 0, 2 -> 5.
    cache.insert(3, "C", 1);
    assert_eq!(cache.get(1, 0), None);
    assert_eq!(cache.get(2, 0), Some(&"B"));
    assert_eq!(cache.get(3, 0), Some(&"C"));
}

/// Counting accesses for a key the cache does not hold changes no entry.
#[test]
fn access_of_absent_key_is_harmless() {
    let mut cache: Cache<&str> = Cache::new(2, 2);
    cache.insert(1, "A", 1);
    cache.access(9, 100);
    assert_eq!(cache.get(1, 0), Some(&"A"));
    assert_eq!(cache.get(9, 0), None);
}

/// The lock hands out exclusive access to its value; dropping the guard
/// stores the value back for the next taker.
#[test]
fn spinlock_guards_a_value() {
    let lock = Spinlock::new(5i32);
    let mut guard = lock.lock();
    assert_eq!(*guard.value(), 5);
    guard.set(6);
    assert_eq!(*guard.value_mut(), 6);
    guard.drop();
    let guard2 = lock.lock();
    assert_eq!(*guard2.value(), 6);
    guard2.drop();
}
