use vstd::prelude::*;
use crate::poison::{carried, map_result, raised_after, Flag, Guard, LockResult, PoisonError, TryLockError, TryLockResult};
use crate::queue::{
    lemma_empty_queue_has_no_owner, lemma_mutual_exclusion, lemma_next_slot_unused,
    lemma_release_passes_in_order, release_step,
    same_phases_except, McsQueue, Phase,
};

verus! {

/// A mutual-exclusion lock that protects a value of type `T`, built on the
/// MCS queue lock: each thread that asks for the lock queues a node of its
/// own and spins on that node only, and the lock passes from thread to thread
/// in the order in which they queued.
///
/// Each method is one step of a thread. A thread that must wait keeps the
/// handle it was given (`Waiter`, `Releaser`) and calls the next step with it.
pub struct Mutex<T> {
    queue: McsQueue,
    poison: Flag,
    data: T,
}

/// The proof that a thread holds the lock; it gives access to the protected
/// value and is handed back to release the lock.
#[derive(Debug)]
pub struct MutexGuard {
    node: usize,
    poison: Guard,
}

/// A thread queued for the lock.
#[derive(Debug)]
pub struct Waiter {
    node: usize,
}

/// A thread that is releasing the lock.
#[derive(Debug)]
pub struct Releaser {
    node: usize,
}

/// The outcome of a step of a blocking acquisition.
#[derive(Debug)]
pub enum LockStep {
    /// The thread holds the lock.
    Acquired(LockResult<MutexGuard>),
    /// The thread is queued behind others and waits.
    Queued(Waiter),
}

impl Waiter {
    /// The queue node of the waiting thread.
    pub closed spec fn node(&self) -> usize {
        self.node
    }

    /// The queue node of the waiting thread.
    pub fn node_index(&self) -> (n: usize)
        ensures
            n == self.node(),
    {
        self.node
    }
}

impl Releaser {
    /// The queue node of the releasing thread.
    pub closed spec fn node(&self) -> usize {
        self.node
    }

    /// The queue node of the releasing thread.
    pub fn node_index(&self) -> (n: usize)
        ensures
            n == self.node(),
    {
        self.node
    }
}

impl MutexGuard {
    /// The queue node of the thread that holds this guard.
    pub closed spec fn node(&self) -> usize {
        self.node
    }

    /// Whether the thread was panicking when it took the lock.
    pub closed spec fn panicking(&self) -> bool {
        self.poison.panicking()
    }

    /// The queue node of the thread that holds this guard.
    pub fn node_index(&self) -> (n: usize)
        ensures
            n == self.node(),
    {
        self.node
    }

    /// Borrows the value protected by `lock`, which this guard holds.
    pub fn deref<'a, T>(&self, lock: &'a Mutex<T>) -> (t: &'a T)
        requires
            lock.holds(*self),
        ensures
            *t == lock.value(),
    {
        &lock.data
    }

    /// Borrows the value protected by `lock`, which this guard holds,
    /// mutably; what is written through the borrow is the new value.
    pub fn deref_mut<'a, T>(&self, lock: &'a mut Mutex<T>) -> (t: &'a mut T)
        requires
            old(lock).holds(*self),
        ensures
            *t == old(lock).value(),
            final(lock).value() == *final(t),
            final(lock).queue() == old(lock).queue(),
            final(lock).poisoned() == old(lock).poisoned(),
    {
        &mut lock.data
    }

    /// Makes the guard of a thread that has just acquired `lock` with `node`;
    /// it comes back in `Err` when the lock is poisoned.
    fn new<T>(lock: &Mutex<T>, node: usize, panicking: bool) -> (r: LockResult<MutexGuard>)
        ensures
            r is Ok <==> !lock.poisoned(),
            carried(r).node() == node,
            carried(r).panicking() == panicking,
    {
        let make = |guard: Guard| -> (g: MutexGuard)
            ensures
                g.node == node,
                g.poison == guard,
            {
                let g = MutexGuard { node, poison: guard };
                g
            };
        map_result(lock.poison.borrow(panicking), make)
    }
}

impl<T> Mutex<T> {
    /// The queue of the lock.
    pub closed spec fn queue(&self) -> McsQueue {
        self.queue
    }

    /// Whether a thread panicked while it held the lock.
    pub closed spec fn poisoned(&self) -> bool {
        self.poison.failed()
    }

    /// The protected value.
    pub closed spec fn value(&self) -> T {
        self.data
    }

    /// Whether `g` is the guard of the thread that holds the lock.
    pub open spec fn holds(&self, g: MutexGuard) -> bool {
        g.node() < self.queue().nodes_len() && self.queue().phase_of(g.node()) is Holding
    }

    /// Every guard that holds the lock in `before` still holds it.
    pub open spec fn keeps_holder(&self, before: Mutex<T>) -> bool {
        forall|g: MutexGuard| #[trigger] before.holds(g) ==> self.holds(g)
    }

    /// The protected value and the poison flag are those of `before`.
    pub open spec fn keeps(&self, before: Mutex<T>) -> bool {
        self.value() == before.value() && self.poisoned() == before.poisoned()
    }

    /// Creates a new mutex in an unlocked state ready for use.
    pub fn new(t: T) -> (m: Mutex<T>)
        ensures
            m.queue().wf(),
            m.queue().order() == Seq::<usize>::empty(),
            m.queue().nodes_len() == 0,
            !m.poisoned(),
            m.value() == t,
    {
        let m = Mutex { queue: McsQueue::new(), poison: Flag::new(), data: t };
        proof {
            use_type_invariant(&m.queue);
        }
        m
    }

    /// First step of `lock`: takes a queue node for the calling thread (a
    /// free slot when there is one) and swaps it into the tail. With an empty
    /// queue the thread holds the lock at once; otherwise it links itself
    /// behind the old tail with `link`, then waits with `wait`. `panicking`
    /// tells whether the calling thread is unwinding now.
    pub fn lock(&mut self, panicking: bool) -> (step: LockStep)
        requires
            old(self).queue().order().len() < usize::MAX,
        ensures
            final(self).queue().wf(),
            final(self).keeps(*old(self)),
            final(self).keeps_holder(*old(self)),
            old(self).queue().next_slot() == old(self).queue().nodes_len() || (
            old(self).queue().next_slot() < old(self).queue().nodes_len() && old(
                self,
            ).queue().phase_of(old(self).queue().next_slot()) is Done),
            final(self).queue().order() == old(self).queue().order().push(
                old(self).queue().next_slot(),
            ),
            step is Acquired <==> old(self).queue().order().len() == 0,
            step matches LockStep::Acquired(r) ==> {
                &&& r is Ok <==> !old(self).poisoned()
                &&& carried(r).node() == old(self).queue().next_slot()
                &&& carried(r).panicking() == panicking
                &&& final(self).holds(carried(r))
            },
            step matches LockStep::Queued(w) ==> {
                &&& w.node() == old(self).queue().next_slot()
                &&& w.node() < final(self).queue().nodes_len()
                &&& final(self).queue().phase_of(w.node()) == Phase::Linking(
                    old(self).queue().order().last(),
                )
            },
            old(self).queue().free_slots().len() > 0 ==> final(self).queue().nodes_len() == old(
                self,
            ).queue().nodes_len(),
            same_phases_except(old(self).queue(), final(self).queue(), old(self).queue().next_slot()),
    {
        proof {
            use_type_invariant(&self.queue);
            lemma_next_slot_unused(self.queue);
        }
        let n: usize = self.queue.swap_in();
        proof {
            use_type_invariant(&self.queue);
        }
        if self.queue.phase(n) == Phase::Holding {
            LockStep::Acquired(MutexGuard::new(self, n, panicking))
        } else {
            LockStep::Queued(Waiter { node: n })
        }
    }

    /// Second step of `lock` for a queued thread: links its node into the
    /// `next` of the node in front; from then on the thread spins on its node.
    pub fn link(&mut self, w: &Waiter)
        requires
            w.node() < old(self).queue().nodes_len(),
            old(self).queue().phase_of(w.node()) is Linking,
        ensures
            final(self).queue().wf(),
            final(self).keeps(*old(self)),
            final(self).keeps_holder(*old(self)),
            final(self).queue().order() == old(self).queue().order(),
            final(self).queue().nodes_len() == old(self).queue().nodes_len(),
            final(self).queue().phase_of(w.node()) == Phase::Waiting,
            same_phases_except(old(self).queue(), final(self).queue(), w.node()),
    {
        self.queue.link(w.node);
        proof {
            use_type_invariant(&self.queue);
        }
    }

    /// One spin of a waiting thread: it gets its guard once the thread in
    /// front has handed the lock over, which is exactly when it is at the
    /// head of the queue; otherwise nothing changes and the waiter comes back.
    pub fn wait(&mut self, w: Waiter, panicking: bool) -> (step: LockStep)
        requires
            w.node() < old(self).queue().nodes_len(),
            old(self).queue().phase_of(w.node()) is Waiting,
        ensures
            final(self).queue().wf(),
            final(self).keeps(*old(self)),
            final(self).keeps_holder(*old(self)),
            final(self).queue().order() == old(self).queue().order(),
            final(self).queue().nodes_len() == old(self).queue().nodes_len(),
            old(self).queue().order().len() > 0,
            step is Acquired <==> old(self).queue().order()[0] == w.node(),
            step matches LockStep::Acquired(r) ==> {
                &&& r is Ok <==> !old(self).poisoned()
                &&& carried(r).node() == w.node()
                &&& carried(r).panicking() == panicking
                &&& final(self).holds(carried(r))
                &&& same_phases_except(old(self).queue(), final(self).queue(), w.node())
            },
            step matches LockStep::Queued(w2) ==> w2.node() == w.node() && final(self).queue()
                == old(self).queue(),
    {
        let ghost q0 = self.queue;
        proof {
            use_type_invariant(&self.queue);
        }
        let n: usize = w.node;
        let acquired = self.queue.poll(n);
        proof {
            use_type_invariant(&self.queue);
            assert forall|g: MutexGuard| #[trigger] old(self).holds(g) implies self.holds(g) by {
                q0.lemma_owner_is_head(g.node());
            }
        }
        if acquired {
            LockStep::Acquired(MutexGuard::new(self, n, panicking))
        } else {
            LockStep::Queued(w)
        }
    }

    /// Attempts to acquire the lock without waiting: succeeds exactly when
    /// the queue is empty, and reports `Poisoned` (with the guard, the lock
    /// being held) when a thread panicked while it held the lock. When the
    /// lock is held, nothing changes.
    pub fn try_lock(&mut self, panicking: bool) -> (r: TryLockResult<MutexGuard>)
        ensures
            final(self).queue().wf(),
            final(self).keeps(*old(self)),
            final(self).keeps_holder(*old(self)),
            r is Ok <==> (old(self).queue().order().len() == 0 && !old(self).poisoned()),
            (r matches Err(TryLockError::WouldBlock)) <==> old(self).queue().order().len() != 0,
            (r matches Err(TryLockError::WouldBlock)) ==> final(self).queue() == old(self).queue(),
            old(self).queue().order().len() == 0 ==> final(self).queue().order() == seq![
                old(self).queue().next_slot(),
            ] && same_phases_except(
                old(self).queue(),
                final(self).queue(),
                old(self).queue().next_slot(),
            ),
            r matches Ok(g) ==> g.node() == old(self).queue().next_slot() && g.panicking()
                == panicking && final(self).holds(g),
            r matches Err(TryLockError::Poisoned(e)) ==> e.inner().node() == old(
                self,
            ).queue().next_slot() && e.inner().panicking() == panicking && final(self).holds(
                e.inner(),
            ),
    {
        let ghost q0 = self.queue;
        proof {
            use_type_invariant(&self.queue);
        }
        let acquired = self.queue.try_acquire();
        proof {
            use_type_invariant(&self.queue);
            assert forall|g: MutexGuard| #[trigger] old(self).holds(g) implies self.holds(g) by {
                if q0.order().len() == 0 {
                    lemma_empty_queue_has_no_owner(q0, g.node());
                }
            }
        }
        match acquired {
            Some(n) => match MutexGuard::new(self, n, panicking) {
                Ok(g) => Ok(g),
                Err(e) => Err(TryLockError::Poisoned(e)),
            },
            None => Err(TryLockError::WouldBlock),
        }
    }

    /// First step of releasing the lock held under `guard`: raises the poison
    /// flag when the thread started to panic while it held the lock, then
    /// reads the thread's node: with a linked successor the release goes on
    /// to hand the lock over, otherwise to reset the tail. The release
    /// finishes with `finish_unlock`.
    pub fn unlock(&mut self, guard: MutexGuard, panicking: bool) -> (r: Releaser)
        requires
            old(self).holds(guard),
        ensures
            final(self).queue().wf(),
            release_step(old(self).queue(), final(self).queue(), guard.node()),
            final(self).value() == old(self).value(),
            final(self).poisoned() == raised_after(old(self).poisoned(), guard.panicking(), panicking),
            r.node() == guard.node(),
            old(self).queue().order().len() > 0,
            old(self).queue().order()[0] == guard.node(),
            final(self).queue().order() == old(self).queue().order(),
            final(self).queue().nodes_len() == old(self).queue().nodes_len(),
            final(self).queue().free_slots() == old(self).queue().free_slots(),
            final(self).queue().phase_of(r.node()) == (if old(self).queue().order().len() > 1
                && !(old(self).queue().phase_of(old(self).queue().order()[1]) is Linking) {
                Phase::HandingOver(old(self).queue().order()[1])
            } else {
                Phase::Unlocking
            }),
            same_phases_except(old(self).queue(), final(self).queue(), guard.node()),
    {
        self.poison.done(&guard.poison, panicking);
        let n: usize = guard.node;
        self.queue.release(n);
        proof {
            use_type_invariant(&self.queue);
        }
        Releaser { node: n }
    }

    /// One further step of a release: resets the tail when the thread is
    /// still the tail (the lock becomes free), waits for an unlinked
    /// successor to link, or hands the lock to the linked successor. In every
    /// finished release the head leaves the queue, its slot becomes free, and
    /// the next thread in line (if any) has been handed the lock. The releaser
    /// comes back while the release is not finished.
    pub fn finish_unlock(&mut self, r: Releaser) -> (next: Option<Releaser>)
        requires
            r.node() < old(self).queue().nodes_len(),
            old(self).queue().phase_of(r.node()) is Unlocking || old(self).queue().phase_of(
                r.node(),
            ) is Releasing || old(self).queue().phase_of(r.node()) is HandingOver,
        ensures
            final(self).queue().wf(),
            release_step(old(self).queue(), final(self).queue(), r.node()),
            final(self).keeps(*old(self)),
            final(self).keeps_holder(*old(self)),
            final(self).queue().nodes_len() == old(self).queue().nodes_len(),
            old(self).queue().order().len() > 0,
            old(self).queue().order()[0] == r.node(),
            next is None <==> (old(self).queue().phase_of(r.node()) is HandingOver || old(
                self,
            ).queue().phase_of(r.node()) is Unlocking && old(self).queue().order().len() == 1),
            next is None ==> {
                &&& final(self).queue().order() == old(self).queue().order().drop_first()
                &&& final(self).queue().free_slots() == old(self).queue().free_slots().push(r.node())
                &&& final(self).queue().phase_of(r.node()) == Phase::Done
                &&& old(self).queue().order().len() > 1 ==> final(self).queue().handed(
                    old(self).queue().order()[1],
                )
            },
            next matches Some(r2) ==> {
                &&& r2.node() == r.node()
                &&& final(self).queue().order() == old(self).queue().order()
                &&& final(self).queue().free_slots() == old(self).queue().free_slots()
                &&& old(self).queue().order().len() > 1
                &&& final(self).queue().phase_of(r.node()) == (if old(self).queue().phase_of(
                    r.node(),
                ) is Releasing && !(old(self).queue().phase_of(old(self).queue().order()[1]) is Linking) {
                    Phase::HandingOver(old(self).queue().order()[1])
                } else {
                    Phase::Releasing
                })
            },
            same_phases_except(old(self).queue(), final(self).queue(), r.node()),
    {
        let ghost q0 = self.queue;
        proof {
            use_type_invariant(&self.queue);
            assert forall|g: MutexGuard| #[trigger] old(self).holds(g) implies false by {
                q0.lemma_owner_is_head(g.node());
                q0.lemma_owner_is_head(r.node());
            }
        }
        let n: usize = r.node;
        let next = match self.queue.phase(n) {
            Phase::Unlocking => {
                if self.queue.reset_tail(n) {
                    None
                } else {
                    Some(r)
                }
            },
            Phase::Releasing => {
                self.queue.poll_successor(n);
                Some(r)
            },
            _ => {
                self.queue.hand_over(n);
                None
            },
        };
        proof {
            use_type_invariant(&self.queue);
        }
        next
    }

    /// Whether `guard` is the guard of the thread that holds the lock.
    pub fn is_held_by(&self, guard: &MutexGuard) -> (b: bool)
        ensures
            b == self.holds(*guard),
    {
        guard.node < self.queue.node_count() && self.queue.phase(guard.node) == Phase::Holding
    }

    /// The phase of the thread with queue node `n`.
    pub fn phase(&self, n: usize) -> (p: Phase)
        requires
            n < self.queue().nodes_len(),
        ensures
            p == self.queue().phase_of(n),
    {
        self.queue.phase(n)
    }

    /// How many queue node slots there are, in use or free.
    pub fn node_count(&self) -> (c: usize)
        ensures
            c == self.queue().nodes_len(),
    {
        self.queue.node_count()
    }

    /// How many threads are in the queue.
    pub fn live_count(&self) -> (c: usize)
        ensures
            c == self.queue().order().len(),
    {
        self.queue.live_count()
    }

    /// Determines whether the mutex is poisoned.
    pub fn is_poisoned(&self) -> (b: bool)
        ensures
            b == self.poisoned(),
    {
        self.poison.get()
    }

    /// Returns a mutable reference to the underlying data; no locking is
    /// needed, the mutable borrow shows that no thread holds the lock. In
    /// `Err` when the mutex is poisoned.
    pub fn get_mut(&mut self) -> (r: LockResult<&mut T>)
        ensures
            r is Ok <==> !old(self).poisoned(),
            *carried(r) == old(self).value(),
            final(self).value() == *final(carried(r)),
            final(self).queue().wf(),
            final(self).queue() == old(self).queue(),
            final(self).poisoned() == old(self).poisoned(),
    {
        proof {
            use_type_invariant(&self.queue);
        }
        let poisoned = self.poison.get();
        let data = &mut self.data;
        if poisoned {
            Err(PoisonError::new(data))
        } else {
            Ok(data)
        }
    }

    /// Consumes this mutex, returning the underlying data; in `Err` when the
    /// mutex is poisoned.
    pub fn into_inner(self) -> (r: LockResult<T>)
        ensures
            r is Ok <==> !self.poisoned(),
            carried(r) == self.value(),
    {
        let Mutex { queue: _, poison, data } = self;
        let take = |_guard: Guard| -> (t: T)
            ensures
                t == data,
            { data };
        map_result(poison.borrow(false), take)
    }
}

impl<T: Default> Default for Mutex<T> {
    /// Creates an unlocked, unpoisoned mutex with the `Default` value for `T`.
    fn default() -> (m: Mutex<T>)
        ensures
            m.queue().wf(),
            m.queue().order() == Seq::<usize>::empty(),
            m.queue().nodes_len() == 0,
            !m.poisoned(),
            call_ensures(T::default, (), m.value()),
    {
        Mutex::new(T::default())
    }
}

/// Mutual exclusion: two guards that both hold the lock belong to the same
/// thread.
pub proof fn lemma_one_holder<T>(m: Mutex<T>, g1: MutexGuard, g2: MutexGuard)
    requires
        m.queue().wf(),
        m.holds(g1),
        m.holds(g2),
    ensures
        g1.node() == g2.node(),
{
    lemma_mutual_exclusion(m.queue(), g1.node(), g2.node());
}

/// After a completed release, the lock goes to the first thread that was
/// queued behind the releaser: that thread is now the head of the queue, so
/// its next `wait` acquires; every other queued thread neither holds the lock
/// nor has been handed it, so its `wait` keeps waiting.
pub proof fn lemma_release_hands_to_first_waiter<T>(pre: Mutex<T>, post: Mutex<T>, w: Waiter)
    requires
        pre.queue().wf(),
        post.queue().wf(),
        pre.queue().order().len() > 1,
        post.queue().order() == pre.queue().order().drop_first(),
        w.node() < post.queue().nodes_len(),
        post.queue().order().contains(w.node()),
    ensures
        post.queue().order()[0] == pre.queue().order()[1],
        (post.queue().order()[0] == w.node()) <==> (w.node() == pre.queue().order()[1]),
        w.node() != pre.queue().order()[1] ==> !post.queue().owns(w.node()) && !(post.queue().handed(
            w.node(),
        ) && post.queue().phase_of(w.node()) is Waiting),
{
    if w.node() != pre.queue().order()[1] {
        lemma_release_passes_in_order(pre.queue(), post.queue(), w.node());
    }
}

} // verus!
