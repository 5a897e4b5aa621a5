use vstd::prelude::*;

verus! {

/// A queue node: one for each thread that asks for the lock. `next` names the
/// node of the thread queued right behind (`None` while there is none, or while
/// that thread has not linked itself yet), and `waiting` stays `true` until the
/// thread in front hands the lock over.
#[derive(Clone, Copy)]
pub struct Node {
    next: Option<usize>,
    waiting: bool,
}

impl Node {
    /// The successor link of the node.
    pub closed spec fn next(&self) -> Option<usize> {
        self.next
    }

    /// Whether the node's thread still waits for the lock to be handed over.
    pub closed spec fn waiting(&self) -> bool {
        self.waiting
    }

    /// A fresh node: no successor, still waiting.
    pub fn new() -> (n: Node)
        ensures
            n.next() is None,
            n.waiting(),
    {
        Node { next: None, waiting: true }
    }
}

/// Where the thread that owns a node stands in the protocol.
#[derive(Clone, Copy, Debug, PartialEq, Eq, Structural)]
pub enum Phase {
    /// Swapped itself into the tail behind the given node, not yet linked to it.
    Linking(usize),
    /// Linked behind its predecessor, spinning until the lock is handed over.
    Waiting,
    /// Holds the lock.
    Holding,
    /// Releasing the lock; found no successor linked, about to reset the tail.
    Unlocking,
    /// Releasing the lock; a successor has swapped in but not linked yet.
    Releasing,
    /// Releasing the lock; about to hand it to the given linked successor.
    HandingOver(usize),
    /// The node's slot is free.
    Done,
}

/// The fields of the lock's shared state. Nodes are named by their index;
/// `free` holds the slots of the nodes that are no longer used, and the ghost
/// `order` is the queue from its head (the thread that owns the lock, or is
/// being handed it) to its tail.
struct State {
    tail: Option<usize>,
    nodes: Vec<Node>,
    phases: Vec<Phase>,
    free: Vec<usize>,
    order: Ghost<Seq<usize>>,
}

impl State {
    /// The node that the node at position `i` of the queue must point to.
    spec fn expected_next(&self, i: int) -> Option<usize> {
        let q = self.order@;
        if i + 1 < q.len() && !(self.phases@[q[i + 1] as int] is Linking) {
            Some(q[i + 1])
        } else {
            None
        }
    }

    /// The head of the queue owns the lock or has been handed it.
    spec fn head_ok(&self) -> bool {
        let q = self.order@;
        let h = q[0];
        match self.phases@[h as int] {
            Phase::Holding => true,
            Phase::Unlocking => true,
            Phase::Releasing => q.len() > 1,
            Phase::HandingOver(s) => q.len() > 1 && q[1] == s && !(
            self.phases@[s as int] is Linking),
            Phase::Waiting => !self.nodes@[h as int].waiting,
            _ => false,
        }
    }

    /// Every other node of the queue is still waiting, linked or not yet
    /// linked to the node in front of it.
    spec fn follower_ok(&self, i: int) -> bool {
        let q = self.order@;
        let n = q[i];
        &&& self.nodes@[n as int].waiting
        &&& match self.phases@[n as int] {
            Phase::Linking(p) => p == q[i - 1],
            Phase::Waiting => true,
            _ => false,
        }
    }

    /// The free list holds exactly the slots not in use.
    spec fn free_ok(&self) -> bool {
        let f = self.free@;
        &&& f.no_duplicates()
        &&& forall|i: int|
            0 <= i < f.len() ==> #[trigger] f[i] < self.nodes@.len() && self.phases@[f[i] as int] is Done
        &&& forall|n: usize|
            #![trigger self.phases@[n as int]]
            n < self.nodes@.len() && self.phases@[n as int] is Done ==> f.contains(n)
        &&& self.nodes@.len() == self.order@.len() + f.len()
    }

    /// The invariant of the lock.
    spec fn wf(&self) -> bool {
        let q = self.order@;
        &&& self.nodes@.len() == self.phases@.len()
        &&& q.no_duplicates()
        &&& forall|i: int| 0 <= i < q.len() ==> #[trigger] q[i] < self.nodes@.len()
        &&& self.tail == (if q.len() == 0 { None::<usize> } else { Some(q.last()) })
        &&& forall|n: usize|
            #![trigger self.phases@[n as int]]
            n < self.nodes@.len() ==> (self.phases@[n as int] is Done <==> !q.contains(n))
        &&& self.free_ok()
        &&& q.len() > 0 ==> self.head_ok()
        &&& forall|i: int| 0 < i < q.len() ==> #[trigger] self.follower_ok(i)
        &&& forall|i: int|
            0 <= i < q.len() ==> #[trigger] self.nodes@[q[i] as int].next == self.expected_next(i)
    }

    /// The position in the queue of a node that is in use; a node behind the
    /// head is a follower.
    proof fn position(&self, n: usize) -> (i: int)
        requires
            self.wf(),
            n < self.nodes@.len(),
            !(self.phases@[n as int] is Done),
        ensures
            0 <= i < self.order@.len(),
            self.order@[i] == n,
            i > 0 ==> self.follower_ok(i),
    {
        assert(self.order@.contains(n));
        choose|i: int| 0 <= i < self.order@.len() && self.order@[i] == n
    }

    /// A node in use that is not a follower is the head of the queue.
    proof fn lemma_head(&self, n: usize)
        requires
            self.wf(),
            n < self.nodes@.len(),
            !(self.phases@[n as int] is Done),
            !(self.phases@[n as int] is Linking),
            !(self.phases@[n as int] is Waiting) || !self.nodes@[n as int].waiting,
        ensures
            self.order@.len() > 0,
            self.order@[0] == n,
    {
        let i = self.position(n);
        if i > 0 {
            assert(self.follower_ok(i));
        }
    }

    /// The head changes its phase (from one phase of a head to another) and
    /// nothing else changes: the invariant is kept.
    proof fn lemma_head_step(&self, post: State, n: usize, p: Phase)
        requires
            self.wf(),
            n < self.nodes@.len(),
            self.order@.len() > 0,
            self.order@[0] == n,
            !(self.phases@[n as int] is Done),
            !(self.phases@[n as int] is Linking),
            !(p is Done),
            !(p is Linking),
            post.tail == self.tail,
            post.nodes@ == self.nodes@,
            post.free@ == self.free@,
            post.order@ == self.order@,
            post.phases@ == self.phases@.update(n as int, p),
            post.head_ok(),
        ensures
            post.wf(),
    {
        let q = self.order@;
        assert forall|j: int| 0 <= j < q.len() implies #[trigger] post.nodes@[q[j] as int].next
            == post.expected_next(j) by {
            assert(self.nodes@[q[j] as int].next == self.expected_next(j));
            if j + 1 < q.len() && q[j + 1] == n {
                assert(j + 1 == 0);
            }
        }
        assert forall|j: int| 0 < j < q.len() implies #[trigger] post.follower_ok(j) by {
            assert(self.follower_ok(j));
            assert(q[j] != q[0]);
        }
        assert forall|m: usize| m < post.nodes@.len() implies (post.phases@[m as int] is Done
            <==> !q.contains(m)) by {
            assert(self.phases@[m as int] is Done <==> !q.contains(m));
            if m == n {
                assert(q.contains(m));
            }
        }
        assert forall|i: int| 0 <= i < post.free@.len() implies #[trigger] post.free@[i]
            < post.nodes@.len() && post.phases@[post.free@[i] as int] is Done by {
            assert(self.free@[i] < self.nodes@.len() && self.phases@[self.free@[i] as int] is Done);
        }
        assert forall|m: usize|
            m < post.nodes@.len() && post.phases@[m as int] is Done implies post.free@.contains(m) by {
            assert(self.phases@[m as int] is Done);
        }
    }

    /// The head `n` leaves the queue and its slot goes onto the free list:
    /// the queue, the free list and the `Done` phases stay in step.
    proof fn lemma_retire_head(&self, post: State, n: usize)
        requires
            self.wf(),
            self.order@.len() > 0,
            self.order@[0] == n,
            post.nodes@.len() == self.nodes@.len(),
            post.phases@ == self.phases@.update(n as int, Phase::Done),
            post.free@ == self.free@.push(n),
            post.order@ == self.order@.drop_first(),
        ensures
            post.order@.no_duplicates(),
            forall|i: int| 0 <= i < post.order@.len() ==> #[trigger] post.order@[i] < post.nodes@.len(),
            forall|m: usize|
                #![trigger post.phases@[m as int]]
                m < post.nodes@.len() ==> (post.phases@[m as int] is Done <==> !post.order@.contains(m)),
            post.free_ok(),
    {
        let q = self.order@;
        let r = post.order@;
        let f = post.free@;
        let o = *self;
        assert(q.contains(n));
        assert forall|m: usize| m < post.nodes@.len() implies (post.phases@[m as int] is Done
            <==> !r.contains(m)) by {
            assert(o.phases@[m as int] is Done <==> !q.contains(m));
            if m == n {
                if r.contains(m) {
                    let j = choose|j: int| 0 <= j < r.len() && r[j] == m;
                    assert(q[j + 1] == q[0]);
                }
            } else {
                if q.contains(m) {
                    let j = choose|j: int| 0 <= j < q.len() && q[j] == m;
                    assert(j != 0);
                    assert(r[j - 1] == m);
                }
                if r.contains(m) {
                    let j = choose|j: int| 0 <= j < r.len() && r[j] == m;
                    assert(q[j + 1] == m);
                }
            }
        }
        assert(r.no_duplicates()) by {
            assert forall|i: int, j: int| 0 <= i < r.len() && 0 <= j < r.len() && i != j
                implies r[i] != r[j] by {
                assert(r[i] == q[i + 1]);
                assert(r[j] == q[j + 1]);
            }
        }
        assert forall|i: int| 0 <= i < r.len() implies #[trigger] r[i] < post.nodes@.len() by {
            assert(r[i] == q[i + 1]);
        }
        assert(!o.free@.contains(n)) by {
            if o.free@.contains(n) {
                let j = choose|j: int| 0 <= j < o.free@.len() && o.free@[j] == n;
                assert(o.phases@[o.free@[j] as int] is Done);
            }
        }
        assert forall|k: int| 0 <= k < f.len() implies #[trigger] f[k] < post.nodes@.len()
            && post.phases@[f[k] as int] is Done by {
            if k < o.free@.len() {
                assert(o.free@[k] < o.nodes@.len() && o.phases@[o.free@[k] as int] is Done);
            }
        }
        assert forall|m: usize|
            m < post.nodes@.len() && post.phases@[m as int] is Done implies f.contains(m) by {
            if m == n {
                assert(f[f.len() - 1] == n);
            } else {
                assert(o.phases@[m as int] is Done);
                let j = choose|j: int| 0 <= j < o.free@.len() && o.free@[j] == m;
                assert(f[j] == m);
            }
        }
        assert(f.no_duplicates()) by {
            assert forall|i: int, j: int| 0 <= i < f.len() && 0 <= j < f.len() && i != j
                implies f[i] != f[j] by {
                if i < o.free@.len() && j < o.free@.len() {
                } else if i < o.free@.len() {
                    assert(o.free@.contains(f[i]));
                } else {
                    assert(o.free@.contains(f[j]));
                }
            }
        }
    }

    /// An unlocked state with no nodes.
    fn empty() -> (s: State)
        ensures
            s.wf(),
            s.order@ == Seq::<usize>::empty(),
            s.nodes@.len() == 0,
            s.free@.len() == 0,
    {
        State {
            tail: None,
            nodes: Vec::new(),
            phases: Vec::new(),
            free: Vec::new(),
            order: Ghost(Seq::empty()),
        }
    }

    /// Takes a fresh node: the last free slot when there is one, a new slot
    /// otherwise. The node keeps the phase `Done` until the caller sets it.
    fn alloc_slot(&mut self) -> (n: usize)
        requires
            old(self).wf(),
            old(self).order@.len() < usize::MAX,
        ensures
            final(self).tail == old(self).tail,
            final(self).order@ == old(self).order@,
            old(self).free@.len() > 0 ==> {
                &&& n == old(self).free@.last()
                &&& final(self).free@ == old(self).free@.drop_last()
                &&& final(self).nodes@ == old(self).nodes@.update(n as int, Node { next: None, waiting: true })
                &&& final(self).phases@ == old(self).phases@
            },
            old(self).free@.len() == 0 ==> {
                &&& n == old(self).nodes@.len()
                &&& final(self).free@ == old(self).free@
                &&& final(self).nodes@ == old(self).nodes@.push(Node { next: None, waiting: true })
                &&& final(self).phases@ == old(self).phases@.push(Phase::Done)
            },
    {
        match self.free.pop() {
            Some(n) => {
                proof {
                    assert(old(self).free@[old(self).free@.len() - 1] < self.nodes@.len());
                }
                self.nodes.set(n, Node::new());
                n
            },
            None => {
                let n: usize = self.nodes.len();
                self.nodes.push(Node::new());
                self.phases.push(Phase::Done);
                n
            },
        }
    }
}

/// The shared state of an MCS lock: the tail of the queue and the queue
/// nodes, each with the phase of the thread that owns it. Each method is one
/// atomic step of a thread.
pub struct McsQueue {
    st: State,
}

/// `a` and `b` give the same phase to every node of `a` other than `n`.
pub open spec fn same_phases_except(a: McsQueue, b: McsQueue, n: usize) -> bool {
    forall|m: usize| m < a.nodes_len() && m != n ==> b.phase_of(m) == a.phase_of(m)
}

/// One step of the release by node `n`: no other node changes its phase,
/// no slot is added, and at most `n`'s slot goes onto the free list.
pub open spec fn release_step(pre: McsQueue, post: McsQueue, n: usize) -> bool {
    &&& same_phases_except(pre, post, n)
    &&& post.nodes_len() == pre.nodes_len()
    &&& (post.free_slots() == pre.free_slots() || post.free_slots() == pre.free_slots().push(n))
}

impl McsQueue {
    /// The invariant of the lock.
    #[verifier::type_invariant]
    pub closed spec fn wf(&self) -> bool {
        self.st.wf()
    }

    /// The queue, from head to tail.
    pub closed spec fn order(&self) -> Seq<usize> {
        self.st.order@
    }

    /// How many node slots there are, in use or free.
    pub closed spec fn nodes_len(&self) -> nat {
        self.st.nodes@.len()
    }

    /// The free slots, the next one to be reused last.
    pub closed spec fn free_slots(&self) -> Seq<usize> {
        self.st.free@
    }

    /// The phase of node `n`.
    pub closed spec fn phase_of(&self, n: usize) -> Phase {
        self.st.phases@[n as int]
    }

    /// Whether the lock has been handed over to node `n`.
    pub closed spec fn handed(&self, n: usize) -> bool {
        !self.st.nodes@[n as int].waiting
    }

    /// The slot that the next node taken will use: the last free slot, or a
    /// new one.
    pub open spec fn next_slot(&self) -> usize {
        if self.free_slots().len() > 0 {
            self.free_slots().last()
        } else {
            self.nodes_len() as usize
        }
    }

    /// Whether the thread of node `n` owns the lock: it holds it, or it is
    /// releasing it.
    pub open spec fn owns(&self, n: usize) -> bool {
        &&& n < self.nodes_len()
        &&& match self.phase_of(n) {
            Phase::Holding | Phase::Unlocking | Phase::Releasing | Phase::HandingOver(_) => true,
            _ => false,
        }
    }

    /// Takes the state out, leaving an empty one in its place.
    fn take(&mut self) -> (st: State)
        ensures
            st == old(self).st,
            st.wf(),
    {
        proof {
            use_type_invariant(&*self);
        }
        let mut st = State::empty();
        std::mem::swap(&mut st, &mut self.st);
        st
    }

    /// An unlocked lock with no nodes.
    pub fn new() -> (s: McsQueue)
        ensures
            s.order() == Seq::<usize>::empty(),
            s.nodes_len() == 0,
            s.free_slots() == Seq::<usize>::empty(),
    {
        McsQueue { st: State::empty() }
    }

    /// Takes a node (reusing a free slot when there is one) for a thread that
    /// asks for the lock, and swaps it into the tail. With an empty queue the
    /// thread holds the lock at once; otherwise it must still link itself
    /// behind the old tail.
    pub fn swap_in(&mut self) -> (n: usize)
        requires
            old(self).order().len() < usize::MAX,
        ensures
            n == old(self).next_slot(),
            n < final(self).nodes_len(),
            final(self).order() == old(self).order().push(n),
            old(self).free_slots().len() > 0 ==> {
                &&& n == old(self).free_slots().last()
                &&& final(self).free_slots() == old(self).free_slots().drop_last()
                &&& final(self).nodes_len() == old(self).nodes_len()
            },
            old(self).free_slots().len() == 0 ==> {
                &&& n == old(self).nodes_len()
                &&& final(self).free_slots() == old(self).free_slots()
                &&& final(self).nodes_len() == old(self).nodes_len() + 1
            },
            final(self).phase_of(n) == (if old(self).order().len() == 0 {
                Phase::Holding
            } else {
                Phase::Linking(old(self).order().last())
            }),
            same_phases_except(*old(self), *final(self), n),
    {
        let mut st = self.take();
        let ghost o = st;
        let n: usize = st.alloc_slot();
        let prev = st.tail;
        st.tail = Some(n);
        match prev {
            None => st.phases.set(n, Phase::Holding),
            Some(p) => st.phases.set(n, Phase::Linking(p)),
        }
        proof {
            let q0 = o.order@;
            assert(!q0.contains(n)) by {
                if o.free@.len() > 0 {
                    assert(o.free@[o.free@.len() - 1] == n);
                    assert(o.phases@[n as int] is Done);
                }
                if q0.contains(n) {
                    let j = choose|j: int| 0 <= j < q0.len() && q0[j] == n;
                    assert(q0[j] < o.nodes@.len());
                }
            }
            st.order@ = q0.push(n);
            let q = st.order@;
            assert(q.no_duplicates()) by {
                assert forall|i: int, j: int| 0 <= i < q.len() && 0 <= j < q.len() && i != j
                    implies q[i] != q[j] by {
                    if i < q0.len() && j < q0.len() {
                    } else if i < q0.len() {
                        assert(q0.contains(q[i]));
                    } else {
                        assert(q0.contains(q[j]));
                    }
                }
            }
            assert forall|i: int| 0 <= i < q.len() implies #[trigger] q[i] < st.nodes@.len() by {
                if i < q0.len() {
                    assert(q0[i] < o.nodes@.len());
                }
            }
            assert forall|j: int| 0 <= j < q.len() implies #[trigger] st.nodes@[q[j] as int].next
                == st.expected_next(j) by {
                if j < q0.len() {
                    assert(q0.contains(q0[j]));
                    assert(o.nodes@[q0[j] as int].next == o.expected_next(j));
                    if j + 1 < q0.len() {
                        assert(q0.contains(q0[j + 1]));
                    }
                }
            }
            assert forall|j: int| 0 < j < q.len() implies #[trigger] st.follower_ok(j) by {
                if j < q0.len() {
                    assert(o.follower_ok(j));
                    assert(q0.contains(q0[j]));
                }
            }
            assert forall|m: usize| m < st.nodes@.len() implies (st.phases@[m as int] is Done
                <==> !q.contains(m)) by {
                if m != n {
                    assert(m < o.nodes@.len());
                    assert(o.phases@[m as int] is Done <==> !q0.contains(m));
                    if q.contains(m) {
                        let j = choose|j: int| 0 <= j < q.len() && q[j] == m;
                        assert(q0[j] == m);
                    }
                    if q0.contains(m) {
                        let j = choose|j: int| 0 <= j < q0.len() && q0[j] == m;
                        assert(q[j] == m);
                    }
                } else {
                    assert(q[q.len() - 1] == n);
                }
            }
            let f = st.free@;
            assert forall|i: int| 0 <= i < f.len() implies #[trigger] f[i] < st.nodes@.len()
                && st.phases@[f[i] as int] is Done by {
                assert(o.free@[i] == f[i]);
                assert(o.free@[i] < o.nodes@.len() && o.phases@[o.free@[i] as int] is Done);
                if o.free@.len() > 0 {
                    assert(o.free@[o.free@.len() - 1] == n);
                    assert(i != o.free@.len() - 1);
                }
            }
            assert forall|m: usize|
                m < st.nodes@.len() && st.phases@[m as int] is Done implies f.contains(m) by {
                assert(m != n);
                assert(o.phases@[m as int] is Done);
                assert(o.free@.contains(m));
                let j = choose|j: int| 0 <= j < o.free@.len() && o.free@[j] == m;
                if o.free@.len() > 0 {
                    assert(j != o.free@.len() - 1);
                    assert(f[j] == m);
                } else {
                    assert(f[j] == m);
                }
            }
            assert(f.no_duplicates()) by {
                assert forall|i: int, j: int| 0 <= i < f.len() && 0 <= j < f.len() && i != j
                    implies f[i] != f[j] by {
                    assert(f[i] == o.free@[i]);
                    assert(f[j] == o.free@[j]);
                }
            }
            if q0.len() > 0 {
                assert(o.head_ok());
                assert(q0.contains(q0[0]));
                assert(q[0] == q0[0]);
                if q0.len() > 1 {
                    assert(q[1] == q0[1]);
                    assert(q0.contains(q0[1]));
                }
            }
        }
        self.st = st;
        n
    }

    /// Links node `n`, which swapped itself in behind its predecessor, into
    /// the predecessor's `next`; from then on the thread spins on its node.
    pub fn link(&mut self, n: usize)
        requires
            n < old(self).nodes_len(),
            old(self).phase_of(n) is Linking,
        ensures
            final(self).order() == old(self).order(),
            final(self).nodes_len() == old(self).nodes_len(),
            final(self).free_slots() == old(self).free_slots(),
            final(self).phase_of(n) == Phase::Waiting,
            same_phases_except(*old(self), *final(self), n),
            forall|m: usize| m < old(self).nodes_len() ==> final(self).handed(m) == old(self).handed(m),
    {
        let mut st = self.take();
        let ghost o = st;
        if let Phase::Linking(p) = st.phases[n] {
            let ghost q = o.order@;
            let ghost i = o.position(n);
            proof {
                if i == 0 {
                    assert(o.head_ok());
                }
                assert(o.follower_ok(i));
                assert(q[i - 1] < o.nodes@.len());
            }
            let mut pred = st.nodes[p];
            pred.next = Some(n);
            st.nodes.set(p, pred);
            st.phases.set(n, Phase::Waiting);
            proof {
                assert forall|j: int| 0 <= j < q.len() implies #[trigger] st.nodes@[q[j] as int].next
                    == st.expected_next(j) by {
                    assert(o.nodes@[q[j] as int].next == o.expected_next(j));
                    if j + 1 < q.len() && j + 1 != i {
                        assert(q[j + 1] != n);
                    }
                    if j != i - 1 {
                        assert(q[j] != p);
                    }
                }
                assert forall|j: int| 0 < j < q.len() implies #[trigger] st.follower_ok(j) by {
                    assert(o.follower_ok(j));
                    if j != i {
                        assert(q[j] != n);
                    }
                }
                assert forall|m: usize| m < st.nodes@.len() implies (st.phases@[m as int] is Done
                    <==> !q.contains(m)) by {
                    assert(o.phases@[m as int] is Done <==> !q.contains(m));
                }
                let f = st.free@;
                assert forall|k: int| 0 <= k < f.len() implies #[trigger] f[k] < st.nodes@.len()
                    && st.phases@[f[k] as int] is Done by {
                    assert(o.free@[k] < o.nodes@.len() && o.phases@[o.free@[k] as int] is Done);
                }
                assert forall|m: usize|
                    m < st.nodes@.len() && st.phases@[m as int] is Done implies f.contains(m) by {
                    assert(o.phases@[m as int] is Done);
                }
                if q.len() > 0 {
                    assert(o.head_ok());
                    assert(q[0] != n);
                    if q.len() > 1 && q[1] == n {
                        assert(!(o.phases@[q[0] as int] is HandingOver));
                    }
                }
            }
        }
        self.st = st;
    }

    /// One spin of a waiting thread: reads its node's `waiting` flag. The
    /// thread takes the lock exactly when it is at the head of the queue,
    /// which is when the thread in front has handed the lock over.
    pub fn poll(&mut self, n: usize) -> (acquired: bool)
        requires
            n < old(self).nodes_len(),
            old(self).phase_of(n) is Waiting,
        ensures
            old(self).order().len() > 0,
            acquired <==> old(self).order()[0] == n,
            acquired <==> old(self).handed(n),
            acquired ==> final(self).order() == old(self).order() && final(self).nodes_len()
                == old(self).nodes_len() && final(self).free_slots() == old(self).free_slots()
                && final(self).phase_of(n) == Phase::Holding && same_phases_except(
                *old(self),
                *final(self),
                n,
            ),
            !acquired ==> *final(self) == *old(self),
    {
        let mut st = self.take();
        let ghost o = st;
        proof {
            let i = o.position(n);
            if i == 0 {
                assert(o.head_ok());
            }
        }
        if !st.nodes[n].waiting {
            st.phases.set(n, Phase::Holding);
            proof {
                o.lemma_head(n);
                o.lemma_head_step(st, n, Phase::Holding);
            }
            self.st = st;
            true
        } else {
            self.st = st;
            false
        }
    }

    /// A thread that asks for the lock without waiting: when the tail is
    /// null, takes a node and swaps it in, and so holds the lock; otherwise
    /// nothing changes.
    pub fn try_acquire(&mut self) -> (r: Option<usize>)
        ensures
            r is Some <==> old(self).order().len() == 0,
            r matches Some(n) ==> {
                &&& n == old(self).next_slot()
                &&& n < final(self).nodes_len()
                &&& final(self).order() == seq![n]
                &&& final(self).phase_of(n) == Phase::Holding
                &&& old(self).free_slots().len() > 0 ==> n == old(self).free_slots().last()
                    && final(self).free_slots() == old(self).free_slots().drop_last()
                    && final(self).nodes_len() == old(self).nodes_len()
                &&& old(self).free_slots().len() == 0 ==> n == old(self).nodes_len()
                    && final(self).free_slots() == old(self).free_slots() && final(self).nodes_len()
                    == old(self).nodes_len() + 1
                &&& same_phases_except(*old(self), *final(self), n)
            },
            r is None ==> *final(self) == *old(self),
    {
        proof {
            use_type_invariant(&*self);
        }
        if self.st.tail.is_none() {
            let n: usize = self.swap_in();
            proof {
                assert(self.order() =~= seq![n]);
            }
            Some(n)
        } else {
            None
        }
    }

    /// First step of a release by the owner `n`: reads its node's `next`.
    /// With a linked successor it goes on to hand the lock over; without one
    /// it goes on to reset the tail.
    pub fn release(&mut self, n: usize)
        requires
            n < old(self).nodes_len(),
            old(self).phase_of(n) is Holding,
        ensures
            old(self).order().len() > 0,
            old(self).order()[0] == n,
            final(self).order() == old(self).order(),
            final(self).nodes_len() == old(self).nodes_len(),
            final(self).free_slots() == old(self).free_slots(),
            final(self).phase_of(n) == (if old(self).order().len() > 1 && !(old(self).phase_of(
                old(self).order()[1],
            ) is Linking) {
                Phase::HandingOver(old(self).order()[1])
            } else {
                Phase::Unlocking
            }),
            same_phases_except(*old(self), *final(self), n),
            release_step(*old(self), *final(self), n),
            forall|m: usize| m < old(self).nodes_len() ==> final(self).handed(m) == old(self).handed(m),
    {
        let mut st = self.take();
        let ghost o = st;
        proof {
            o.lemma_head(n);
            assert(o.nodes@[o.order@[0] as int].next == o.expected_next(0));
        }
        match st.nodes[n].next {
            Some(s) => {
                st.phases.set(n, Phase::HandingOver(s));
                proof {
                    assert(o.order@.contains(o.order@[1]));
                    assert(o.order@[1] != n);
                    o.lemma_head_step(st, n, Phase::HandingOver(s));
                }
            },
            None => {
                st.phases.set(n, Phase::Unlocking);
                proof {
                    o.lemma_head_step(st, n, Phase::Unlocking);
                }
            },
        }
        self.st = st;
    }

    /// The owner `n` found no linked successor: compares the tail with its
    /// node and, when they are equal, resets the tail, so that the lock is
    /// free and `n`'s slot is free. Otherwise a successor has swapped in, and
    /// the thread waits for its link (`poll_successor`).
    pub fn reset_tail(&mut self, n: usize) -> (freed: bool)
        requires
            n < old(self).nodes_len(),
            old(self).phase_of(n) is Unlocking,
        ensures
            old(self).order().len() > 0,
            old(self).order()[0] == n,
            freed <==> old(self).order().len() == 1,
            final(self).nodes_len() == old(self).nodes_len(),
            final(self).order() == (if freed {
                Seq::<usize>::empty()
            } else {
                old(self).order()
            }),
            final(self).free_slots() == (if freed {
                old(self).free_slots().push(n)
            } else {
                old(self).free_slots()
            }),
            final(self).phase_of(n) == (if freed {
                Phase::Done
            } else {
                Phase::Releasing
            }),
            same_phases_except(*old(self), *final(self), n),
            release_step(*old(self), *final(self), n),
            forall|m: usize| m < old(self).nodes_len() ==> final(self).handed(m) == old(self).handed(m),
    {
        let mut st = self.take();
        let ghost o = st;
        let ghost q = o.order@;
        proof {
            o.lemma_head(n);
        }
        let still_tail = match st.tail {
            Some(t) => t == n,
            None => false,
        };
        if still_tail {
            proof {
                if q.len() > 1 {
                    assert(q[q.len() - 1] != q[0]);
                }
            }
            st.tail = None;
            st.phases.set(n, Phase::Done);
            st.free.push(n);
            proof {
                st.order@ = q.drop_first();
                o.lemma_retire_head(st, n);
            }
            self.st = st;
            true
        } else {
            st.phases.set(n, Phase::Releasing);
            proof {
                assert(q.len() > 1);
                o.lemma_head_step(st, n, Phase::Releasing);
            }
            self.st = st;
            false
        }
    }

    /// One spin of a releasing thread: once the successor has linked itself,
    /// the thread goes on to hand the lock over.
    pub fn poll_successor(&mut self, n: usize) -> (linked: bool)
        requires
            n < old(self).nodes_len(),
            old(self).phase_of(n) is Releasing,
        ensures
            old(self).order().len() > 1,
            old(self).order()[0] == n,
            linked <==> !(old(self).phase_of(old(self).order()[1]) is Linking),
            linked ==> final(self).order() == old(self).order() && final(self).nodes_len()
                == old(self).nodes_len() && final(self).free_slots() == old(self).free_slots()
                && final(self).phase_of(n) == Phase::HandingOver(old(self).order()[1])
                && same_phases_except(*old(self), *final(self), n) && (forall|m: usize|
                m < old(self).nodes_len() ==> final(self).handed(m) == old(self).handed(m)),
            !linked ==> *final(self) == *old(self),
            release_step(*old(self), *final(self), n),
    {
        let mut st = self.take();
        let ghost o = st;
        proof {
            o.lemma_head(n);
            assert(o.head_ok());
            assert(o.nodes@[o.order@[0] as int].next == o.expected_next(0));
        }
        match st.nodes[n].next {
            Some(s) => {
                st.phases.set(n, Phase::HandingOver(s));
                proof {
                    assert(o.order@.contains(o.order@[1]));
                    assert(o.order@[1] != n);
                    o.lemma_head_step(st, n, Phase::HandingOver(s));
                }
                self.st = st;
                true
            },
            None => {
                self.st = st;
                false
            },
        }
    }

    /// Last step of a release: the owner `n` clears the `waiting` flag of its
    /// linked successor, which thereby gets the lock, and frees its own slot.
    pub fn hand_over(&mut self, n: usize)
        requires
            n < old(self).nodes_len(),
            old(self).phase_of(n) is HandingOver,
        ensures
            old(self).order().len() > 1,
            old(self).order()[0] == n,
            old(self).phase_of(n) == Phase::HandingOver(old(self).order()[1]),
            final(self).order() == old(self).order().drop_first(),
            final(self).nodes_len() == old(self).nodes_len(),
            final(self).free_slots() == old(self).free_slots().push(n),
            final(self).phase_of(n) == Phase::Done,
            final(self).handed(old(self).order()[1]),
            same_phases_except(*old(self), *final(self), n),
            release_step(*old(self), *final(self), n),
    {
        let mut st = self.take();
        let ghost o = st;
        let ghost q = o.order@;
        if let Phase::HandingOver(s) = st.phases[n] {
            proof {
                o.lemma_head(n);
                assert(o.head_ok());
                assert(o.follower_ok(1));
                assert(q.contains(q[1]));
                assert(q[1] < o.nodes@.len());
            }
            let mut succ = st.nodes[s];
            succ.waiting = false;
            st.nodes.set(s, succ);
            st.phases.set(n, Phase::Done);
            st.free.push(n);
            proof {
                st.order@ = q.drop_first();
                let r = st.order@;
                assert forall|j: int| 0 <= j < r.len() implies #[trigger] st.nodes@[r[j] as int].next
                    == st.expected_next(j) by {
                    assert(r[j] == q[j + 1]);
                    assert(o.nodes@[q[j + 1] as int].next == o.expected_next(j + 1));
                    if j + 1 < r.len() {
                        assert(r[j + 1] == q[j + 2]);
                        assert(q[j + 2] != n);
                    }
                }
                assert forall|j: int| 0 < j < r.len() implies #[trigger] st.follower_ok(j) by {
                    assert(r[j] == q[j + 1]);
                    assert(r[j - 1] == q[j]);
                    assert(o.follower_ok(j + 1));
                    assert(q[j + 1] != n);
                    assert(q[j + 1] != s);
                }
                o.lemma_retire_head(st, n);
                assert(r[0] == s);
            }
        }
        self.st = st;
    }

    /// The phase of node `n`.
    pub fn phase(&self, n: usize) -> (p: Phase)
        requires
            n < self.nodes_len(),
        ensures
            p == self.phase_of(n),
    {
        proof {
            use_type_invariant(self);
        }
        self.st.phases[n]
    }

    /// How many node slots there are, in use or free.
    pub fn node_count(&self) -> (c: usize)
        ensures
            c == self.nodes_len(),
    {
        self.st.nodes.len()
    }

    /// How many nodes are in the queue.
    pub fn live_count(&self) -> (c: usize)
        ensures
            c == self.order().len(),
    {
        proof {
            use_type_invariant(self);
        }
        self.st.nodes.len() - self.st.free.len()
    }

    /// A node that owns the lock is the head of the queue.
    pub proof fn lemma_owner_is_head(&self, n: usize)
        requires
            self.wf(),
            self.owns(n),
        ensures
            self.order().len() > 0,
            self.order()[0] == n,
    {
        self.st.lemma_head(n);
    }
}

/// Mutual exclusion: two nodes that both own the lock are the same node.
pub proof fn lemma_mutual_exclusion(q: McsQueue, a: usize, b: usize)
    requires
        q.wf(),
        q.owns(a),
        q.owns(b),
    ensures
        a == b,
{
    q.lemma_owner_is_head(a);
    q.lemma_owner_is_head(b);
}

/// A lock whose queue is empty has no owner.
pub proof fn lemma_empty_queue_has_no_owner(q: McsQueue, n: usize)
    requires
        q.wf(),
        q.order().len() == 0,
    ensures
        !q.owns(n),
{
    if q.owns(n) {
        q.lemma_owner_is_head(n);
    }
}

/// The lock passes in queue order: only the head of the queue may own the
/// lock or have been handed it, and every other thread in the queue still
/// waits.
pub proof fn lemma_only_head_proceeds(q: McsQueue, n: usize)
    requires
        q.wf(),
        n < q.nodes_len(),
        q.owns(n) || q.handed(n) && q.phase_of(n) is Waiting,
    ensures
        q.order().len() > 0,
        q.order()[0] == n,
{
    q.st.lemma_head(n);
}

/// After a release completes, the lock goes to the first thread that waited
/// behind the releaser: it becomes the head of the queue, and every other
/// queued thread neither owns the lock nor has been handed it.
pub proof fn lemma_release_passes_in_order(pre: McsQueue, post: McsQueue, m: usize)
    requires
        pre.wf(),
        post.wf(),
        pre.order().len() > 1,
        post.order() == pre.order().drop_first(),
        m < post.nodes_len(),
        post.order().contains(m),
        m != pre.order()[1],
    ensures
        post.order()[0] == pre.order()[1],
        !post.owns(m),
        !(post.handed(m) && post.phase_of(m) is Waiting),
{
    if post.owns(m) || (post.handed(m) && post.phase_of(m) is Waiting) {
        lemma_only_head_proceeds(post, m);
    }
}

/// The slot that the next node takes is not in use: it is a new slot or a
/// free one.
pub proof fn lemma_next_slot_unused(q: McsQueue)
    requires
        q.wf(),
    ensures
        q.next_slot() == q.nodes_len() || (q.next_slot() < q.nodes_len() && q.phase_of(
            q.next_slot(),
        ) is Done),
{
    if q.free_slots().len() > 0 {
        let f = q.st.free@;
        assert(f[f.len() - 1] < q.st.nodes@.len() && q.st.phases@[f[f.len() - 1] as int] is Done);
    } else {
        assert(q.st.nodes@.len() == q.st.nodes.len());
    }
}

/// What a run of release steps of `n` keeps, up to its `k`-th state.
proof fn lemma_release_run_prefix(run: Seq<McsQueue>, n: usize, k: int)
    requires
        0 <= k < run.len(),
        forall|i: int| 0 <= i < run.len() ==> (#[trigger] run[i]).wf(),
        forall|i: int| 0 <= i < run.len() - 1 ==> release_step(#[trigger] run[i], run[i + 1], n),
    ensures
        same_phases_except(run[0], run[k], n),
        run[k].nodes_len() == run[0].nodes_len(),
        run[k].free_slots() == run[0].free_slots() || run[k].free_slots() == run[0].free_slots().push(n),
    decreases k,
{
    if k > 0 {
        lemma_release_run_prefix(run, n, k - 1);
        let a = run[k - 1];
        let b = run[k];
        assert(release_step(a, b, n));
        assert(b.wf());
        let f0 = run[0].free_slots();
        if a.free_slots() == f0.push(n) && b.free_slots() == a.free_slots().push(n) {
            let f = b.st.free@;
            assert(f[f.len() - 1] == n);
            assert(f[f.len() - 2] == n);
        }
    }
}

/// A whole release frees exactly the releaser's node: over a run of release
/// steps of `n` that starts while `n` owns the lock and ends with its slot
/// free, no other node changes its phase, no slot is added, and `n`'s slot is
/// added to the free list once.
pub proof fn lemma_release_frees_own_node(run: Seq<McsQueue>, n: usize)
    requires
        run.len() > 0,
        forall|i: int| 0 <= i < run.len() ==> (#[trigger] run[i]).wf(),
        forall|i: int| 0 <= i < run.len() - 1 ==> release_step(#[trigger] run[i], run[i + 1], n),
        run[0].owns(n),
        run.last().phase_of(n) is Done,
    ensures
        same_phases_except(run[0], run.last(), n),
        run.last().nodes_len() == run[0].nodes_len(),
        run.last().free_slots() == run[0].free_slots().push(n),
{
    lemma_release_run_prefix(run, n, run.len() - 1);
    let first = run[0];
    let last = run[run.len() - 1];
    assert(last.wf());
    assert(first.wf());
    assert(last.st.free@.contains(n));
    assert(!first.st.free@.contains(n)) by {
        if first.st.free@.contains(n) {
            let j = choose|j: int| 0 <= j < first.st.free@.len() && first.st.free@[j] == n;
            assert(first.st.phases@[first.st.free@[j] as int] is Done);
        }
    }
}

/// No slot leaks: every slot is either in the queue or on the free list, and
/// the free slots are exactly those in phase `Done`. So a new slot is
/// allocated only when every slot is in the queue.
pub proof fn lemma_slots_accounted(q: McsQueue)
    requires
        q.wf(),
    ensures
        q.nodes_len() == q.order().len() + q.free_slots().len(),
        forall|i: int|
            0 <= i < q.free_slots().len() ==> #[trigger] q.free_slots()[i] < q.nodes_len()
                && q.phase_of(q.free_slots()[i]) is Done && !q.order().contains(q.free_slots()[i]),
        forall|n: usize| n < q.nodes_len() && !q.order().contains(n) ==> q.free_slots().contains(n),
{
    assert forall|i: int| 0 <= i < q.free_slots().len() implies #[trigger] q.free_slots()[i]
        < q.nodes_len() && q.phase_of(q.free_slots()[i]) is Done && !q.order().contains(
        q.free_slots()[i],
    ) by {
        let f = q.st.free@;
        assert(f[i] < q.st.nodes@.len() && q.st.phases@[f[i] as int] is Done);
    }
    assert forall|n: usize| n < q.nodes_len() && !q.order().contains(n) implies q.free_slots().contains(n) by {
        assert(q.st.phases@[n as int] is Done);
    }
}

} // verus!
