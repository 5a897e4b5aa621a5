use vstd::prelude::*;

verus! {

/// Records whether a thread panicked while it held the lock.
pub struct Flag {
    failed: bool,
}

/// Taken when the lock is acquired: whether the acquiring thread was
/// already panicking at that moment.
#[derive(Debug)]
pub struct Guard {
    panicking: bool,
}

/// The error of an acquisition on a poisoned lock. It still carries what the
/// acquisition would have produced, so that the caller can go on with it.
#[derive(Debug)]
pub struct PoisonError<T> {
    guard: T,
}

/// Why an attempt to acquire the lock without blocking failed.
#[derive(Debug)]
pub enum TryLockError<T> {
    /// The lock was acquired, but it is poisoned.
    Poisoned(PoisonError<T>),
    /// The lock is held by another thread.
    WouldBlock,
}

/// The result of a blocking acquisition.
pub type LockResult<T> = Result<T, PoisonError<T>>;

/// The result of a non-blocking acquisition.
pub type TryLockResult<T> = Result<T, TryLockError<T>>;

/// What a lock result carries, whether or not the lock is poisoned.
pub open spec fn carried<T>(r: LockResult<T>) -> T {
    match r {
        Ok(t) => t,
        Err(e) => e.inner(),
    }
}

/// Two lock results of the same variant that carry the same value are
/// equal. With the contract of `map_result`, mapping with a function whose
/// contract fixes its result gives back the variant of the input: mapping
/// with the identity returns the input, and mapping with `f` and then `g`
/// returns what mapping once with `g` after `f` returns.
pub proof fn lemma_lock_result_ext<T>(a: LockResult<T>, b: LockResult<T>)
    requires
        a is Ok <==> b is Ok,
        carried(a) == carried(b),
    ensures
        a == b,
{
    match (a, b) {
        (Err(e1), Err(e2)) => {
            assert(e1.guard == e2.guard);
        },
        _ => {},
    }
}

/// The poison flag after a release: raised when it was raised before, or
/// when the releasing thread was not panicking when it took the lock
/// (`taken_panicking`) but is panicking now (`released_panicking`).
pub open spec fn raised_after(failed: bool, taken_panicking: bool, released_panicking: bool) -> bool {
    failed || (!taken_panicking && released_panicking)
}

/// The poison flag after one step of a lock: a release (given by whether
/// the thread was panicking when it took the lock and when it released it)
/// or, for `None`, any other step, which keeps the flag.
pub open spec fn after_event(failed: bool, event: Option<(bool, bool)>) -> bool {
    match event {
        Some((taken, released)) => raised_after(failed, taken, released),
        None => failed,
    }
}

/// The poison flag of a new lock after the given steps.
pub open spec fn flag_after(events: Seq<Option<(bool, bool)>>) -> bool
    decreases events.len(),
{
    if events.len() == 0 {
        false
    } else {
        after_event(flag_after(events.drop_last()), events.last())
    }
}

/// A lock is poisoned exactly when one of its releases was made by a thread
/// that was not panicking when it took the lock and was panicking when it
/// released it.
pub proof fn lemma_poison_history(events: Seq<Option<(bool, bool)>>)
    ensures
        flag_after(events) <==> exists|i: int|
            0 <= i < events.len() && #[trigger] events[i] == Some((false, true)),
    decreases events.len(),
{
    if events.len() > 0 {
        let init = events.drop_last();
        lemma_poison_history(init);
        if flag_after(init) {
            let i = choose|i: int| 0 <= i < init.len() && #[trigger] init[i] == Some((false, true));
            assert(events[i] == init[i]);
        }
        if exists|i: int| 0 <= i < events.len() && #[trigger] events[i] == Some((false, true)) {
            let i = choose|i: int| 0 <= i < events.len() && #[trigger] events[i] == Some((false, true));
            if i < init.len() {
                assert(init[i] == events[i]);
            }
        }
    }
}

/// The poison history of a run of calls. `flags[k]` is the flag (of a
/// `Flag`, or the `poisoned()` of a `Mutex`) after `k` steps: it starts
/// lowered (`Flag::new`, `Mutex::new`), a release changes it as
/// `Flag::done` and `Mutex::unlock` state, and every other call keeps it.
/// Then after every step the flag is raised exactly when some release so
/// far was made by a thread that began to panic while it held the lock, and
/// once raised it stays raised.
pub proof fn lemma_flag_run(flags: Seq<bool>, events: Seq<Option<(bool, bool)>>)
    requires
        flags.len() == events.len() + 1,
        !flags[0],
        forall|i: int| 0 <= i < events.len() ==> flags[i + 1] == after_event(#[trigger] flags[i], events[i]),
    ensures
        forall|k: int| 0 <= k < flags.len() ==> #[trigger] flags[k] == flag_after(events.take(k)),
        flags.last() <==> exists|i: int|
            0 <= i < events.len() && #[trigger] events[i] == Some((false, true)),
        forall|i: int, j: int| 0 <= i <= j < flags.len() && #[trigger] flags[i] ==> #[trigger] flags[j],
    decreases events.len(),
{
    if events.len() > 0 {
        let n = events.len();
        let fi = flags.drop_last();
        let ei = events.drop_last();
        assert forall|i: int| 0 <= i < ei.len() implies fi[i + 1] == after_event(#[trigger] fi[i], ei[i]) by {
            assert(flags[i + 1] == after_event(flags[i], events[i]));
        }
        lemma_flag_run(fi, ei);
        assert forall|k: int| 0 <= k < flags.len() implies #[trigger] flags[k] == flag_after(events.take(k)) by {
            if k < flags.len() - 1 {
                assert(fi[k] == flags[k]);
                assert(ei.take(k) =~= events.take(k));
            } else {
                assert(fi[k - 1] == flags[k - 1]);
                assert(ei.take(k - 1) =~= events.take(k - 1));
                assert(events.take(k).drop_last() =~= events.take(k - 1));
                assert(flags[k] == after_event(flags[k - 1], events[k - 1]));
            }
        }
        assert(events.take(n as int) =~= events);
        lemma_poison_history(events);
        assert forall|i: int, j: int| 0 <= i <= j < flags.len() && #[trigger] flags[i] implies #[trigger] flags[j] by {
            assert(flags[i] == flag_after(events.take(i)));
            assert(flags[j] == flag_after(events.take(j)));
            lemma_poison_history(events.take(i));
            lemma_poison_history(events.take(j));
            let e = choose|e: int| 0 <= e < events.take(i).len() && #[trigger] events.take(i)[e] == Some((false, true));
            assert(events.take(j)[e] == events.take(i)[e]);
        }
    } else {
        lemma_poison_history(events);
        assert(events.take(0) =~= events);
    }
}

/// `map_result` with the identity: the result is the input.
pub proof fn lemma_map_result_identity<T, F: FnOnce(T) -> T>(r: LockResult<T>, f: F, out: LockResult<T>)
    requires
        forall|x: T, y: T| f.ensures((x,), y) ==> y == x,
        out is Ok <==> r is Ok,
        f.ensures((carried(r),), carried(out)),
    ensures
        out == r,
{
    lemma_lock_result_ext(out, r);
}

/// `map_result` with `f` and then `g` gives what `map_result` with `h`,
/// which computes `g` after `f`, gives: the same variant and the same value.
/// `mid`, `twice` and `once` are results as `map_result`'s contract gives
/// them; the functions are described by the spec functions `fs`, `gs`.
pub proof fn lemma_map_result_composition<T, U, V, F: FnOnce(T) -> U, G: FnOnce(U) -> V, H: FnOnce(T) -> V>(
    r: LockResult<T>,
    f: F,
    g: G,
    h: H,
    fs: spec_fn(T) -> U,
    gs: spec_fn(U) -> V,
    mid: LockResult<U>,
    twice: LockResult<V>,
    once: LockResult<V>,
)
    requires
        forall|x: T, y: U| f.ensures((x,), y) ==> y == fs(x),
        forall|x: U, y: V| g.ensures((x,), y) ==> y == gs(x),
        forall|x: T, y: V| h.ensures((x,), y) ==> y == gs(fs(x)),
        mid is Ok <==> r is Ok,
        f.ensures((carried(r),), carried(mid)),
        twice is Ok <==> mid is Ok,
        g.ensures((carried(mid),), carried(twice)),
        once is Ok <==> r is Ok,
        h.ensures((carried(r),), carried(once)),
    ensures
        twice == once,
{
    lemma_lock_result_ext(twice, once);
}

impl Guard {
    /// Whether the thread was panicking when it took the lock.
    pub closed spec fn panicking(&self) -> bool {
        self.panicking
    }
}

impl<T> PoisonError<T> {
    /// The value that the error carries.
    pub closed spec fn inner(&self) -> T {
        self.guard
    }

    /// Wraps a value in a poison error.
    pub fn new(guard: T) -> (e: PoisonError<T>)
        ensures
            e.inner() == guard,
    {
        PoisonError { guard }
    }

    /// Gives back the value that the error carries.
    pub fn into_inner(self) -> (t: T)
        ensures
            t == self.inner(),
    {
        self.guard
    }

    /// Borrows the value that the error carries.
    pub fn get_ref(&self) -> (t: &T)
        ensures
            *t == self.inner(),
    {
        &self.guard
    }

    /// Borrows the value that the error carries, mutably.
    pub fn get_mut(&mut self) -> (t: &mut T)
        ensures
            *t == old(self).inner(),
            final(self).inner() == *final(t),
    {
        &mut self.guard
    }
}

impl Flag {
    /// Whether the flag has been raised.
    pub closed spec fn failed(&self) -> bool {
        self.failed
    }

    /// A flag that has not been raised.
    pub fn new() -> (f: Flag)
        ensures
            !f.failed(),
    {
        Flag { failed: false }
    }

    /// Takes a guard for a thread that acquires the lock; `panicking` tells
    /// whether that thread is unwinding now. The guard comes back in `Err`
    /// exactly when the flag is raised.
    pub fn borrow(&self, panicking: bool) -> (r: LockResult<Guard>)
        ensures
            r is Ok <==> !self.failed(),
            carried(r).panicking() == panicking,
    {
        let ret = Guard { panicking };
        if self.get() {
            Err(PoisonError::new(ret))
        } else {
            Ok(ret)
        }
    }

    /// Called when the lock is released under `guard`; `panicking` tells
    /// whether the releasing thread is unwinding now. The flag is raised when
    /// the thread started to panic while it held the lock, and once raised it
    /// stays raised.
    pub fn done(&mut self, guard: &Guard, panicking: bool)
        ensures
            final(self).failed() == raised_after(old(self).failed(), guard.panicking(), panicking),
    {
        if !guard.panicking && panicking {
            self.failed = true;
        }
    }

    /// Reads the flag.
    pub fn get(&self) -> (b: bool)
        ensures
            b == self.failed(),
    {
        self.failed
    }
}

/// Applies `f` to what `result` carries, keeping whether it is `Ok` or `Err`.
pub fn map_result<T, U, F: FnOnce(T) -> U>(result: LockResult<T>, f: F) -> (r: LockResult<U>)
    requires
        f.requires((carried(result),)),
    ensures
        r is Ok <==> result is Ok,
        f.ensures((carried(result),), carried(r)),
{
    match result {
        Ok(t) => Ok(f(t)),
        Err(e) => Err(PoisonError::new(f(e.into_inner()))),
    }
}

} // verus!
