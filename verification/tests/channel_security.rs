use audion::channel::{BoundedQueue, WorkerPool};
use audion::security::AllowedDirs;

#[test]
fn a_full_channel_blocks_its_sender() {
    let mut q: BoundedQueue<u64> = BoundedQueue::new(2);
    assert!(q.try_send(1).is_none());
    assert!(q.try_send(2).is_none());
    // Backpressure: the third send is refused and the value stays with
    // the sender.
    assert_eq!(q.try_send(3), Some(3));
    assert_eq!(q.len(), 2);
    // Draining frees a slot, in arrival order.
    assert_eq!(q.recv(), Some(1));
    assert!(q.try_send(3).is_none());
    assert_eq!(q.recv(), Some(2));
    assert_eq!(q.recv(), Some(3));
    assert_eq!(q.recv(), None);
}

#[test]
fn blocked_workers_hold_their_item_until_room_frees() {
    let mut q: BoundedQueue<u64> = BoundedQueue::new(1);
    let mut pool: WorkerPool<u64> = WorkerPool { undelivered: vec![Some(10), Some(20)] };
    pool.deliver(0, &mut q);
    assert!(pool.undelivered[0].is_none());
    // The channel is full: the second worker stays blocked.
    pool.deliver(1, &mut q);
    assert_eq!(pool.undelivered[1], Some(20));
    assert_eq!(q.recv(), Some(10));
    pool.deliver(1, &mut q);
    assert!(pool.undelivered[1].is_none());
}

#[test]
fn paths_outside_allowed_dirs_are_refused() {
    let mut allowed = AllowedDirs::new();
    // Uninitialized: everything is allowed, as during startup.
    assert!(allowed.is_safe_path(&"/anywhere/file.mp3".to_string()));

    allowed.init_allowed_dirs(vec!["/music".to_string()]);
    assert!(allowed.is_safe_path(&"/music/song.mp3".to_string()));
    assert!(allowed.is_safe_path(&"/music".to_string()));
    assert!(!allowed.is_safe_path(&"/musical/song.mp3".to_string()));
    assert!(!allowed.is_safe_path(&"/etc/passwd".to_string()));

    // The list is set once; a second initialization is ignored.
    allowed.init_allowed_dirs(vec!["/tmp".to_string()]);
    assert!(!allowed.is_safe_path(&"/tmp/file".to_string()));

    let paths = vec!["/music/a.mp3".to_string(), "/etc/passwd".to_string()];
    assert_eq!(allowed.validate_paths(&paths), Err("/etc/passwd".to_string()));
    let fine = vec!["/music/a.mp3".to_string(), "/music/b/c.mp3".to_string()];
    assert_eq!(allowed.validate_paths(&fine), Ok(()));
}
