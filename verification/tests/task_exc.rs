use async_rust_playground::task_exc::{Async, ExecState};

/// Spawning allocates fresh, strictly increasing IDs: no two live tasks
/// ever share one.
#[test]
fn spawn_ids_unique() {
    let mut s: ExecState<&'static str> = ExecState::new();
    let mut ids: Vec<usize> = Vec::new();
    for name in ["a", "b", "c", "d", "e"] {
        let id = s.alloc_id();
        s.enter_task(id, name);
        ids.push(id);
    }
    assert_eq!(ids, vec![0, 1, 2, 3, 4]);
    for i in 0..ids.len() {
        for j in 0..i {
            assert_ne!(ids[i], ids[j]);
        }
    }
}

/// A newly entered task is immediately ready, and the snapshot polls in
/// the order tasks became ready.
#[test]
fn ready_in_spawn_order() {
    let mut s: ExecState<u32> = ExecState::new();
    for v in [10, 20, 30] {
        let id = s.alloc_id();
        s.enter_task(id, v);
    }
    let snapshot = s.take_ready();
    assert_eq!(snapshot, vec![0, 1, 2]);
}

/// Waking twice before the executor takes its snapshot queues the task
/// once, not twice: one poll per snapshot cycle.
#[test]
fn wake_twice_polls_once() {
    let mut s: ExecState<u32> = ExecState::new();
    let id = s.alloc_id();
    s.enter_task(id, 7);
    s.wake_task(id);
    s.wake_task(id);
    let snapshot = s.take_ready();
    assert_eq!(snapshot, vec![id]);
}

/// A wake that races with the snapshot swap is deferred, never lost: it
/// lands in the new ready set and comes out with the next snapshot.
#[test]
fn wake_after_snapshot_is_deferred() {
    let mut s: ExecState<u32> = ExecState::new();
    let id = s.alloc_id();
    s.enter_task(id, 7);
    let first = s.take_ready();
    assert_eq!(first, vec![id]);
    s.wake_task(id);
    let second = s.take_ready();
    assert_eq!(second, vec![id]);
}

/// Removing a task transfers exclusive ownership: a second removal before
/// the entry is restored finds nothing, so no task is polled concurrently
/// with itself.
#[test]
fn removal_is_exclusive() {
    let mut s: ExecState<u32> = ExecState::new();
    let id = s.alloc_id();
    s.enter_task(id, 7);
    assert_eq!(s.remove_task(id), Some(7));
    assert_eq!(s.remove_task(id), None);
    s.restore_task(id, 7);
    assert_eq!(s.remove_task(id), Some(7));
}

/// Waking an ID whose task has already completed is benign: the stale ID
/// surfaces in a snapshot and its removal yields nothing, which the loop
/// skips silently.
#[test]
fn stale_wake_is_benign() {
    let mut s: ExecState<u32> = ExecState::new();
    let id = s.alloc_id();
    s.enter_task(id, 7);
    let _ = s.take_ready();
    assert_eq!(s.remove_task(id), Some(7));
    s.wake_task(id);
    let snapshot = s.take_ready();
    assert_eq!(snapshot, vec![id]);
    assert_eq!(s.remove_task(id), None);
}

/// One full scheduling pass over a task that completes on its first poll:
/// after the snapshot is processed the table is empty, so the run loop
/// terminates.
#[test]
fn run_ends_when_table_empties() {
    let mut s: ExecState<&'static str> = ExecState::new();
    let id = s.alloc_id();
    s.enter_task(id, "one-shot");
    assert!(!s.no_tasks());
    let snapshot = s.take_ready();
    for ready_id in snapshot {
        if let Some(entry) = s.remove_task(ready_id) {
            // the task completes on its first poll
            s.settle_poll(ready_id, entry, Async::Ready(()));
        }
    }
    assert!(s.no_tasks());
}

/// A task that stays pending is restored under its own ID and is polled
/// again once woken.
#[test]
fn pending_task_is_polled_again_after_wake() {
    let mut s: ExecState<&'static str> = ExecState::new();
    let id = s.alloc_id();
    s.enter_task(id, "sleeper");
    let snapshot = s.take_ready();
    assert_eq!(snapshot, vec![id]);
    let entry = s.remove_task(id).unwrap();
    // the poll returns Pending, having arranged a wakeup
    s.settle_poll(id, entry, Async::Pending);
    s.wake_task(id);
    let next_snapshot = s.take_ready();
    assert_eq!(next_snapshot, vec![id]);
    assert!(s.remove_task(id).is_some());
}
