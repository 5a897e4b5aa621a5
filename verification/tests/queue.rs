use lib::queue::{McsQueue, Node, Phase};

/// Releases node `n` to the end.
fn release_all(q: &mut McsQueue, n: usize) {
    q.release(n);
    loop {
        match q.phase(n) {
            Phase::Unlocking => {
                q.reset_tail(n);
            }
            Phase::Releasing => {
                q.poll_successor(n);
            }
            Phase::HandingOver(_) => q.hand_over(n),
            _ => break,
        }
    }
}

#[test]
fn node_new_is_a_fresh_node() {
    let _n = Node::new();
    let mut q = McsQueue::new();
    let a = q.swap_in();
    assert_eq!(a, 0);
    assert_eq!(q.phase(a), Phase::Holding);
}

#[test]
fn first_thread_holds_at_once() {
    let mut q = McsQueue::new();
    assert_eq!(q.node_count(), 0);
    let a = q.swap_in();
    assert_eq!(q.phase(a), Phase::Holding);
    q.release(a);
    assert_eq!(q.phase(a), Phase::Unlocking);
    assert!(q.reset_tail(a));
    assert_eq!(q.phase(a), Phase::Done);
    // The lock is free again: a try succeeds, in the freed slot.
    assert_eq!(q.try_acquire(), Some(0));
    assert_eq!(q.node_count(), 1);
}

#[test]
fn release_waits_for_unlinked_successor() {
    let mut q = McsQueue::new();
    let a = q.swap_in();
    let b = q.swap_in();
    assert_eq!(q.phase(b), Phase::Linking(a));
    // `b` has swapped itself in but not linked yet: `a` cannot free the lock
    // and cannot hand it over either.
    q.release(a);
    assert_eq!(q.phase(a), Phase::Unlocking);
    assert!(!q.reset_tail(a));
    assert_eq!(q.phase(a), Phase::Releasing);
    assert!(!q.poll_successor(a));
    q.link(b);
    assert_eq!(q.phase(b), Phase::Waiting);
    assert!(q.poll_successor(a));
    assert_eq!(q.phase(a), Phase::HandingOver(b));
    q.hand_over(a);
    assert_eq!(q.phase(a), Phase::Done);
    assert!(q.poll(b));
    assert_eq!(q.phase(b), Phase::Holding);
    release_all(&mut q, b);
    assert_eq!(q.phase(b), Phase::Done);
    assert_eq!(q.live_count(), 0);
}

#[test]
fn successor_links_while_unlocking() {
    let mut q = McsQueue::new();
    let a = q.swap_in();
    let b = q.swap_in();
    q.release(a);
    // `b` links after `a` read its `next`, before `a` compares the tail.
    q.link(b);
    assert!(!q.reset_tail(a));
    assert!(q.poll_successor(a));
    q.hand_over(a);
    assert!(q.poll(b));
    release_all(&mut q, b);
}

#[test]
fn linked_successor_is_handed_the_lock() {
    let mut q = McsQueue::new();
    let a = q.swap_in();
    let b = q.swap_in();
    q.link(b);
    assert!(!q.poll(b));
    q.release(a);
    assert_eq!(q.phase(a), Phase::HandingOver(b));
    assert!(!q.poll(b));
    q.hand_over(a);
    assert!(q.poll(b));
    release_all(&mut q, b);
}

#[test]
fn try_acquire_fails_while_queued() {
    let mut q = McsQueue::new();
    let a = q.swap_in();
    assert_eq!(q.try_acquire(), None);
    // A refused attempt takes no node.
    assert_eq!(q.node_count(), 1);
    release_all(&mut q, a);
    assert_eq!(q.try_acquire(), Some(0));
    assert_eq!(q.phase(0), Phase::Holding);
}

#[test]
fn freed_slots_are_reused() {
    let mut q = McsQueue::new();
    let a = q.swap_in();
    let b = q.swap_in();
    q.link(b);
    release_all(&mut q, a);
    assert!(q.poll(b));
    // `a`'s slot is free: the next thread takes it.
    let c = q.swap_in();
    assert_eq!(c, a);
    assert_eq!(q.node_count(), 2);
    assert_eq!(q.live_count(), 2);
    q.link(c);
    release_all(&mut q, b);
    assert!(q.poll(c));
    release_all(&mut q, c);
    assert_eq!(q.live_count(), 0);
    assert_eq!(q.node_count(), 2);
}

#[test]
fn only_the_head_owns_the_lock() {
    let mut q = McsQueue::new();
    let a = q.swap_in();
    let b = q.swap_in();
    let c = q.swap_in();
    assert_eq!(q.phase(c), Phase::Linking(b));
    q.link(c);
    q.link(b);
    assert!(!q.poll(c));
    assert!(!q.poll(b));
    let owners = (0..q.node_count())
        .filter(|&n| {
            matches!(
                q.phase(n),
                Phase::Holding | Phase::Unlocking | Phase::Releasing | Phase::HandingOver(_)
            )
        })
        .count();
    assert_eq!(owners, 1);
    release_all(&mut q, a);
    assert!(!q.poll(c));
    assert!(q.poll(b));
    release_all(&mut q, b);
    assert!(q.poll(c));
    release_all(&mut q, c);
}
