use worktable::lock::{Lock, LockId, LockMap};

#[test]
fn lock_starts_locked_and_unlocks_once() {
    let mut lock = Lock::new(LockId(7));
    assert!(lock.is_locked());
    lock.unlock();
    assert!(!lock.is_locked());
    assert_eq!(lock.id, LockId(7));
}

#[test]
fn lock_map_acquire_is_exclusive_per_field() {
    let mut map = LockMap::new();
    assert!(map.acquire(1, 2, LockId(0)));
    // a second writer of the same field must wait
    assert!(!map.acquire(1, 2, LockId(1)));
    // another field of the same row is independent
    assert!(map.acquire(1, 3, LockId(2)));
    assert_eq!(map.get(1, 2), Some(LockId(0)));
    map.release(1, 2);
    assert_eq!(map.get(1, 2), None);
    assert!(map.acquire(1, 2, LockId(4)));
}
