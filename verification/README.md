# libmcs

A mutual-exclusion lock built on the MCS queue-lock algorithm, with its
protocol verified by Verus.

- `src/queue.rs`: the MCS queue (tail, queue nodes, phase of each thread) and
  one function per atomic step of a thread; the invariant of the queue, and
  the proof that at most one thread owns the lock and that the lock passes in
  queue order.
- `src/poison.rs`: the poison flag and the lock results that carry a guard
  even when the lock is poisoned.
- `src/mcs.rs`: `Mutex<T>`, the protected value together with the queue and
  the poison flag, and the guard that gives access to the value.
- `src/args.rs`: reading counts from command-line arguments.
- Queue node slots are reused: a released node's slot goes to a free list,
  and a new slot is taken only when every slot is in the queue.
- `app/`: the lock shared between threads, with the interface of
  `std::sync::Mutex` (`Deref`/`Drop` on the guard, std's lock results), and
  the benchmark program. Each protocol step is applied under one short
  internal `std::sync::Mutex` that stands for the step's atomic instruction,
  so waiting threads spin by taking that internal lock: the program runs the
  verified protocol, but it does not have the cache behaviour of a real MCS
  lock (each waiter spinning on its own node), and the benchmark measures the
  protocol together with that internal lock.
