use lib::mcs::{LockStep, Mutex, MutexGuard, Releaser, Waiter};
use lib::poison::{LockResult, TryLockError};
use lib::queue::Phase;
use std::sync::atomic::{AtomicUsize, Ordering};
use std::sync::Arc;

#[derive(Eq, PartialEq, Debug)]
struct NonCopy(i32);

/// Locks a mutex that nobody holds.
fn acquire<T>(m: &mut Mutex<T>, panicking: bool) -> LockResult<MutexGuard> {
    match m.lock(panicking) {
        LockStep::Acquired(r) => r,
        LockStep::Queued(_) => panic!("the mutex is held"),
    }
}

/// Runs a release to its end.
fn release<T>(m: &mut Mutex<T>, g: MutexGuard, panicking: bool) {
    let mut r = m.unlock(g, panicking);
    loop {
        match m.finish_unlock(r) {
            None => break,
            Some(next) => r = next,
        }
    }
}

/// Queues a thread behind the holder, linked.
fn enqueue<T>(m: &mut Mutex<T>) -> Waiter {
    match m.lock(false) {
        LockStep::Queued(w) => {
            m.link(&w);
            w
        }
        LockStep::Acquired(_) => panic!("the lock is held"),
    }
}

/// A thread that holds the lock and then panics: it releases the lock while
/// unwinding.
fn lock_and_panic<T>(m: &mut Mutex<T>) {
    let g = acquire(m, false).unwrap();
    release(m, g, true);
}

#[test]
fn smoke() {
    let mut m = Mutex::new(());
    let g = acquire(&mut m, false).unwrap();
    release(&mut m, g, false);
    let g = acquire(&mut m, false).unwrap();
    release(&mut m, g, false);
}

/// The state of one simulated thread in `lots_and_lots`.
enum Worker {
    Idle(u32),
    Linking(Waiter, u32),
    Queued(Waiter, u32),
    Releasing(Releaser, u32),
}

#[test]
fn lots_and_lots() {
    const J: u32 = 1000;
    const K: u32 = 3;

    let mut m = Mutex::new(0u32);
    let mut workers: Vec<Option<Worker>> = (0..2 * K).map(|_| Some(Worker::Idle(J))).collect();
    let mut finished = 0;
    while finished < workers.len() {
        finished = 0;
        for slot in workers.iter_mut() {
            let next = match slot.take().unwrap() {
                Worker::Idle(0) => {
                    finished += 1;
                    Worker::Idle(0)
                }
                Worker::Idle(left) => match m.lock(false) {
                    LockStep::Acquired(r) => {
                        let g = r.unwrap();
                        *g.deref_mut(&mut m) += 1;
                        Worker::Releasing(m.unlock(g, false), left - 1)
                    }
                    LockStep::Queued(w) => Worker::Linking(w, left),
                },
                Worker::Linking(w, left) => {
                    m.link(&w);
                    Worker::Queued(w, left)
                }
                Worker::Queued(w, left) => match m.wait(w, false) {
                    LockStep::Acquired(r) => {
                        let g = r.unwrap();
                        *g.deref_mut(&mut m) += 1;
                        Worker::Releasing(m.unlock(g, false), left - 1)
                    }
                    LockStep::Queued(w) => Worker::Queued(w, left),
                },
                Worker::Releasing(r, left) => match m.finish_unlock(r) {
                    None => Worker::Idle(left),
                    Some(r) => Worker::Releasing(r, left),
                },
            };
            *slot = Some(next);
        }
    }
    let g = acquire(&mut m, false).unwrap();
    assert_eq!(*g.deref(&m), J * K * 2);
    // Slots are reused: never more than one per simulated thread.
    assert!(m.node_count() <= (2 * K) as usize);
    release(&mut m, g, false);
}

#[test]
fn try_lock() {
    let mut m = Mutex::new(());
    let g = m.try_lock(false).unwrap();
    *g.deref_mut(&mut m) = ();
    release(&mut m, g, false);
}

#[test]
fn test_into_inner() {
    let m = Mutex::new(NonCopy(10));
    assert_eq!(m.into_inner().unwrap(), NonCopy(10));
}

#[test]
fn test_into_inner_drop() {
    #[derive(Debug)]
    struct Foo(Arc<AtomicUsize>);
    impl Drop for Foo {
        fn drop(&mut self) {
            self.0.fetch_add(1, Ordering::SeqCst);
        }
    }
    let num_drops = Arc::new(AtomicUsize::new(0));
    let m = Mutex::new(Foo(num_drops.clone()));
    assert_eq!(num_drops.load(Ordering::SeqCst), 0);
    {
        let _inner = m.into_inner().unwrap();
        assert_eq!(num_drops.load(Ordering::SeqCst), 0);
    }
    assert_eq!(num_drops.load(Ordering::SeqCst), 1);
}

#[test]
fn test_into_inner_poison() {
    let mut m = Mutex::new(NonCopy(10));
    lock_and_panic(&mut m);

    assert!(m.is_poisoned());
    match m.into_inner() {
        Err(e) => assert_eq!(e.into_inner(), NonCopy(10)),
        Ok(x) => panic!("into_inner of poisoned Mutex is Ok: {:?}", x),
    }
}

#[test]
fn test_get_mut() {
    let mut m = Mutex::new(NonCopy(10));
    *m.get_mut().unwrap() = NonCopy(20);
    assert_eq!(m.into_inner().unwrap(), NonCopy(20));
}

#[test]
fn test_get_mut_poison() {
    let mut m = Mutex::new(NonCopy(10));
    lock_and_panic(&mut m);

    assert!(m.is_poisoned());
    match m.get_mut() {
        Err(e) => assert_eq!(*e.into_inner(), NonCopy(10)),
        Ok(x) => panic!("get_mut of poisoned Mutex is Ok: {:?}", x),
    }
}

#[test]
fn test_mutex_arc_poison() {
    let mut arc = Mutex::new(1);
    assert!(!arc.is_poisoned());
    // The other thread finds 1 where it expects 2, and panics with the lock held.
    let lock = acquire(&mut arc, false).unwrap();
    let panics = *lock.deref(&arc) != 2;
    release(&mut arc, lock, panics);
    assert!(acquire(&mut arc, false).is_err());
    assert!(arc.is_poisoned());
}

#[test]
fn test_mutex_arc_nested() {
    // Tests nested mutexes and access to underlying data.
    let arc = Mutex::new(1);
    let mut arc2 = Mutex::new(arc);
    let lock = acquire(&mut arc2, false).unwrap();
    let lock2 = acquire(lock.deref_mut(&mut arc2), false).unwrap();
    assert_eq!(*lock2.deref(lock.deref(&arc2)), 1);
}

#[test]
fn test_mutex_arc_access_in_unwind() {
    let mut arc = Mutex::new(1);
    // The other thread is already unwinding when it takes the lock to
    // increment the value, so the release does not poison the mutex.
    let g = acquire(&mut arc, true).unwrap();
    *g.deref_mut(&mut arc) += 1;
    release(&mut arc, g, true);
    let lock = acquire(&mut arc, false).unwrap();
    assert_eq!(*lock.deref(&arc), 2);
}

#[test]
fn test_mutex_unsized() {
    let mut mutex = Mutex::new([1, 2, 3]);
    {
        let g = acquire(&mut mutex, false).unwrap();
        let b = g.deref_mut(&mut mutex);
        b[0] = 4;
        b[2] = 5;
        release(&mut mutex, g, false);
    }
    let comp: &[i32] = &[4, 2, 5];
    let g = acquire(&mut mutex, false).unwrap();
    assert_eq!(&g.deref(&mutex)[..], comp);
}

#[test]
fn lock_is_granted_in_queue_order() {
    let mut m = Mutex::new(Vec::new());
    let first = acquire(&mut m, false).unwrap();
    let second = enqueue(&mut m);
    let third = enqueue(&mut m);
    // Nobody but the head of the queue gets the lock.
    let third = match m.wait(third, false) {
        LockStep::Queued(w) => w,
        LockStep::Acquired(_) => panic!("not at the head"),
    };
    let second = match m.wait(second, false) {
        LockStep::Queued(w) => w,
        LockStep::Acquired(_) => panic!("not at the head"),
    };
    assert_eq!(m.phase(first.node_index()), Phase::Holding);
    release(&mut m, first, false);
    // The lock went to the next thread in line, not to the last one.
    let third = match m.wait(third, false) {
        LockStep::Queued(w) => w,
        LockStep::Acquired(_) => panic!("not at the head"),
    };
    let n2 = second.node_index();
    let g2 = match m.wait(second, false) {
        LockStep::Acquired(r) => r.unwrap(),
        LockStep::Queued(_) => panic!("the lock was handed over"),
    };
    assert_eq!(g2.node_index(), n2);
    g2.deref_mut(&mut m).push(2);
    release(&mut m, g2, false);
    let g3 = match m.wait(third, false) {
        LockStep::Acquired(r) => r.unwrap(),
        LockStep::Queued(_) => panic!("the lock was handed over"),
    };
    g3.deref_mut(&mut m).push(3);
    release(&mut m, g3, false);
    assert_eq!(m.into_inner().unwrap(), vec![2, 3]);
}

#[test]
fn release_before_the_successor_links() {
    let mut m = Mutex::new(0);
    let g = acquire(&mut m, false).unwrap();
    let w = match m.lock(false) {
        LockStep::Queued(w) => w,
        LockStep::Acquired(_) => panic!("the lock is held"),
    };
    assert_eq!(m.phase(w.node_index()), Phase::Linking(g.node_index()));
    let holder = g.node_index();
    // The holder releases between the successor's swap and its link.
    let r = m.unlock(g, false);
    assert_eq!(m.phase(holder), Phase::Unlocking);
    let r = m.finish_unlock(r).unwrap();
    assert_eq!(m.phase(holder), Phase::Releasing);
    let r = m.finish_unlock(r).unwrap();
    assert_eq!(m.phase(holder), Phase::Releasing);
    m.link(&w);
    let r = m.finish_unlock(r).unwrap();
    assert_eq!(m.phase(holder), Phase::HandingOver(w.node_index()));
    assert!(m.finish_unlock(r).is_none());
    assert_eq!(m.phase(holder), Phase::Done);
    let g = match m.wait(w, false) {
        LockStep::Acquired(r) => r.unwrap(),
        LockStep::Queued(_) => panic!("the lock was handed over"),
    };
    release(&mut m, g, false);
    assert_eq!(m.live_count(), 0);
}

#[test]
fn lock_and_unlock_reuse_the_node() {
    let mut m = Mutex::new(3);
    let g = acquire(&mut m, false).unwrap();
    assert_eq!(m.node_count(), 1);
    release(&mut m, g, false);
    assert_eq!(m.phase(0), Phase::Done);
    for _ in 0..10 {
        let g = acquire(&mut m, false).unwrap();
        assert_eq!(g.node_index(), 0);
        release(&mut m, g, false);
    }
    assert_eq!(m.node_count(), 1);
    assert_eq!(m.live_count(), 0);
    assert!(!m.is_poisoned());
    assert_eq!(m.into_inner().unwrap(), 3);
}

#[test]
fn try_lock_would_block_while_held() {
    let mut m = Mutex::new(5);
    let g = acquire(&mut m, false).unwrap();
    let count = m.node_count();
    assert!(matches!(m.try_lock(false), Err(TryLockError::WouldBlock)));
    // A refused attempt takes no node.
    assert_eq!(m.node_count(), count);
    assert!(m.is_held_by(&g));
    release(&mut m, g, false);
    let g = m.try_lock(false).unwrap();
    assert_eq!(*g.deref(&m), 5);
    release(&mut m, g, false);
    assert_eq!(m.node_count(), count);
}

#[test]
fn try_lock_on_poisoned_mutex_still_acquires() {
    let mut m = Mutex::new(7);
    lock_and_panic(&mut m);
    match m.try_lock(false) {
        Err(TryLockError::Poisoned(e)) => {
            let g = e.into_inner();
            assert!(m.is_held_by(&g));
            assert_eq!(*g.deref(&m), 7);
            release(&mut m, g, false);
        }
        _ => panic!("expected a poisoned lock"),
    }
    assert!(m.is_poisoned());
}

#[test]
fn poisoned_lock_hands_out_its_guard() {
    let mut m = Mutex::new(0_u32);
    lock_and_panic(&mut m);
    let guard = match acquire(&mut m, false) {
        Ok(guard) => guard,
        Err(poisoned) => poisoned.into_inner(),
    };
    *guard.deref_mut(&mut m) += 1;
    assert_eq!(*guard.deref(&m), 1);
    release(&mut m, guard, false);
}

#[test]
fn panic_after_panic_does_not_poison() {
    let mut m = Mutex::new(());
    let g = acquire(&mut m, true).unwrap();
    release(&mut m, g, true);
    assert!(!m.is_poisoned());
    let g = acquire(&mut m, false).unwrap();
    release(&mut m, g, false);
    assert!(!m.is_poisoned());
}

#[test]
fn default_mutex_holds_default_value() {
    let m: Mutex<u64> = Mutex::default();
    assert!(!m.is_poisoned());
    assert_eq!(m.into_inner().unwrap(), 0);
}
