use vstd::prelude::*;

use crate::ready_to_run_queue::{
    distinct_nodes, holds, lemma_holds_drop_first, lemma_holds_publish, lemma_holds_push, Dequeue, ReadyToRunQueue,
    Slot,
};

verus! {

/// Which owner a member record currently has.
#[derive(PartialEq, Eq, Structural, Debug, Clone, Copy)]
pub enum Phase {
    /// In the all-list, holding its computation.
    Linked,
    /// Handed out to be polled: neither in the all-list nor holding its
    /// computation, until `relink` or `release` runs for it.
    Polling,
    /// Finalized: its computation is gone and it never runs again.
    Released,
}

/// One member record.
pub struct Node<T> {
    pub future: Option<T>,
    pub phase: Phase,
    /// Set while the record is in the ready-to-run queue (or on its way
    /// there), and for good once it is released.
    pub queued: bool,
}

/// What one step of the poll driver asks of the caller.
pub enum Step<T> {
    /// No member is left: no value will ever come.
    Exhausted,
    /// Members are left, but none asked to be polled.
    Pending,
    /// A wakeup is being delivered: schedule the polling task again, and
    /// report pending for now.
    PendingRewake,
    /// Poll this member's computation, then hand the outcome back through
    /// `relink` (still pending) or `release` (finished or aborted).
    Poll(usize, T),
}

/// A set of computations that are polled only after they asked to be, and
/// whose results come out in the order in which they finish.
pub struct FuturesUnordered<T> {
    nodes: Vec<Node<T>>,
    head_all: Vec<usize>,
    ready_to_run_queue: ReadyToRunQueue,
}

/// How many records at the front of `q` are published and already released:
/// the poll driver drops those without polling anything.
pub open spec fn released_prefix<T>(q: Seq<Slot>, nodes: Seq<Node<T>>) -> nat
    decreases q.len(),
{
    if q.len() > 0 && q[0].linked && q[0].node < nodes.len() && nodes[q[0].node as int].phase
        == Phase::Released {
        1 + released_prefix(q.drop_first(), nodes)
    } else {
        0
    }
}

/// No record is out being polled.
pub open spec fn idle<T>(nodes: Seq<Node<T>>) -> bool {
    forall|j: int| 0 <= j < nodes.len() ==> (#[trigger] nodes[j]).phase != Phase::Polling
}

/// The released prefix lies within the queue, and is made of published
/// positions of released records.
pub proof fn lemma_released_prefix_bound<T>(q: Seq<Slot>, nodes: Seq<Node<T>>)
    ensures
        released_prefix(q, nodes) <= q.len(),
        forall|j: int|
            0 <= j < released_prefix(q, nodes) ==> (#[trigger] q[j]).linked && q[j].node
                < nodes.len() && nodes[q[j].node as int].phase == Phase::Released,
    decreases q.len(),
{
    if q.len() > 0 && q[0].linked && q[0].node < nodes.len() && nodes[q[0].node as int].phase
        == Phase::Released {
        lemma_released_prefix_bound(q.drop_first(), nodes);
        assert forall|j: int| 0 <= j < released_prefix(q, nodes) implies (#[trigger] q[j]).linked
            && q[j].node < nodes.len() && nodes[q[j].node as int].phase == Phase::Released by {
            if j > 0 {
                assert(q[j] == q.drop_first()[j - 1]);
            }
        }
    }
}

impl<T> FuturesUnordered<T> {
    /// The member records, by index; a record keeps its index for good.
    pub closed spec fn nodes(&self) -> Seq<Node<T>> {
        self.nodes@
    }

    /// The all-list: indices of the members that are linked, newest first.
    pub closed spec fn all(&self) -> Seq<usize> {
        self.head_all@
    }

    /// The ready-to-run queue, oldest first.
    pub closed spec fn queue(&self) -> Seq<Slot> {
        self.ready_to_run_queue@
    }

    pub closed spec fn wf(&self) -> bool {
        &&& self.ready_to_run_queue.wf()
        &&& self.head_all@.no_duplicates()
        &&& forall|k: int|
            0 <= k < self.head_all@.len() ==> (#[trigger] self.head_all@[k]) < self.nodes@.len()
        &&& forall|k: int|
            0 <= k < self.ready_to_run_queue@.len() ==> (#[trigger] self.ready_to_run_queue@[k]).node
                < self.nodes@.len()
        &&& forall|i: int|
            0 <= i < self.nodes@.len() ==> {
                let n = #[trigger] self.nodes@[i];
                &&& (n.phase == Phase::Linked <==> self.head_all@.contains(i as usize))
                &&& (n.future is Some <==> n.phase == Phase::Linked)
                &&& (n.phase == Phase::Released ==> n.queued)
                &&& (n.phase != Phase::Released ==> (n.queued <==> holds(
                    self.ready_to_run_queue@,
                    i as usize,
                )))
            }
    }

    /// Constructs a new, empty set.
    pub fn new() -> (r: Self)
        ensures
            r.wf(),
            r.nodes() == Seq::<Node<T>>::empty(),
            r.all() == Seq::<usize>::empty(),
            r.queue() == Seq::<Slot>::empty(),
    {
        FuturesUnordered {
            nodes: Vec::new(),
            head_all: Vec::new(),
            ready_to_run_queue: ReadyToRunQueue::new(),
        }
    }

    /// Number of members not yet finalized, apart from one being polled.
    pub fn len(&self) -> (r: usize)
        requires
            self.wf(),
        ensures
            r == self.all().len(),
    {
        self.head_all.len()
    }

    /// Whether the set holds no member.
    pub fn is_empty(&self) -> (r: bool)
        requires
            self.wf(),
        ensures
            r == (self.all().len() == 0),
    {
        self.head_all.len() == 0
    }

    /// Whether record `i` is in the ready-to-run queue (or released).
    pub fn is_queued(&self, i: usize) -> (r: bool)
        requires
            self.wf(),
            i < self.nodes().len(),
        ensures
            r == self.nodes()[i as int].queued,
    {
        self.nodes[i].queued
    }

    /// Number of positions in the ready-to-run queue.
    pub fn scheduled(&self) -> (r: usize)
        requires
            self.wf(),
        ensures
            r == self.queue().len(),
    {
        self.ready_to_run_queue.len()
    }

    /// Swaps in `new` as record `i`, handing back the old record.
    fn replace_node(&mut self, i: usize, new: Node<T>) -> (r: Node<T>)
        requires
            i < old(self).nodes@.len(),
        ensures
            r == old(self).nodes@[i as int],
            final(self).nodes@ == old(self).nodes@.update(i as int, new),
            final(self).head_all == old(self).head_all,
            final(self).ready_to_run_queue == old(self).ready_to_run_queue,
    {
        let mut tmp = new;
        self.nodes.set_and_swap(i, &mut tmp);
        tmp
    }

    /// Adds a computation to the set, without polling it. It goes at the
    /// head of the all-list and, unconditionally, into the ready-to-run
    /// queue, so that the next poll reaches it. Its index is the number of
    /// records made before it.
    pub fn push(&mut self, future: T)
        requires
            old(self).wf(),
        ensures
            final(self).wf(),
            final(self).nodes() == old(self).nodes().push(
                Node { future: Some(future), phase: Phase::Linked, queued: true },
            ),
            final(self).all() == seq![old(self).nodes().len() as usize] + old(self).all(),
            final(self).queue() == old(self).queue().push(
                Slot { node: old(self).nodes().len() as usize, linked: true },
            ),
    {
        let idx = self.nodes.len();
        proof {
            if holds(self.ready_to_run_queue@, idx) {
                let k = choose|k: int|
                    0 <= k < self.ready_to_run_queue@.len() && (#[trigger] self.ready_to_run_queue@[k]).node == idx;
                assert(self.ready_to_run_queue@[k].node < self.nodes@.len());
            }
        }
        self.nodes.push(Node { future: Some(future), phase: Phase::Linked, queued: true });
        self.link(idx);
        self.ready_to_run_queue.enqueue(idx);
        proof {
            let new_all = self.head_all@;
            let q = self.ready_to_run_queue@;
            assert forall|i: int| 0 <= i < self.nodes@.len() implies {
                let n = #[trigger] self.nodes@[i];
                &&& (n.phase == Phase::Linked <==> new_all.contains(i as usize))
                &&& (n.phase != Phase::Released ==> (n.queued <==> holds(q, i as usize)))
            } by {
                if i < idx {
                    assert(self.nodes@[i] == old(self).nodes@[i]);
                    if old(self).head_all@.contains(i as usize) {
                        let k = choose|k: int| 0 <= k < old(self).head_all@.len() && old(self).head_all@[k] == i as usize;
                        assert(new_all[k + 1] == i as usize);
                    }
                    if new_all.contains(i as usize) {
                        let k = choose|k: int| 0 <= k < new_all.len() && new_all[k] == i as usize;
                        if k > 0 {
                            assert(old(self).head_all@[k - 1] == i as usize);
                        }
                    }
                    if holds(old(self).ready_to_run_queue@, i as usize) {
                        let k = choose|k: int| 0 <= k < old(self).ready_to_run_queue@.len() && (#[trigger] old(self).ready_to_run_queue@[k]).node == i as usize;
                        assert(q[k] == old(self).ready_to_run_queue@[k]);
                    }
                    if holds(q, i as usize) {
                        let k = choose|k: int| 0 <= k < q.len() && (#[trigger] q[k]).node == i as usize;
                        if k < old(self).ready_to_run_queue@.len() {
                            assert(q[k] == old(self).ready_to_run_queue@[k]);
                        }
                    }
                } else {
                    assert(new_all[0] == idx);
                    assert(q[q.len() - 1].node == idx);
                }
            }
        }
    }

    /// Puts record `i` at the head of the all-list.
    fn link(&mut self, i: usize)
        requires
            !old(self).head_all@.contains(i),
            old(self).head_all@.no_duplicates(),
        ensures
            final(self).head_all@ == seq![i] + old(self).head_all@,
            final(self).head_all@.no_duplicates(),
            final(self).nodes == old(self).nodes,
            final(self).ready_to_run_queue == old(self).ready_to_run_queue,
    {
        self.head_all.insert(0, i);
        assert(self.head_all@ =~= seq![i] + old(self).head_all@);
        assert forall|j: int, k: int|
            0 <= j < self.head_all@.len() && 0 <= k < self.head_all@.len() && j != k implies self.head_all@[j]
                != self.head_all@[k] by {
            if j == 0 {
                assert(old(self).head_all@[k - 1] == self.head_all@[k]);
            } else if k == 0 {
                assert(old(self).head_all@[j - 1] == self.head_all@[j]);
            }
        }
    }

    /// Takes record `i` out of the all-list.
    fn unlink(&mut self, i: usize)
        requires
            old(self).head_all@.contains(i),
            old(self).head_all@.no_duplicates(),
        ensures
            final(self).head_all@ == old(self).head_all@.remove_value(i),
            final(self).head_all@.no_duplicates(),
            forall|x: usize| final(self).head_all@.contains(x) <==> (old(self).head_all@.contains(x) && x != i),
            final(self).nodes == old(self).nodes,
            final(self).ready_to_run_queue == old(self).ready_to_run_queue,
    {
        let mut k: usize = 0;
        while k < self.head_all.len() && self.head_all[k] != i
            invariant
                self.head_all == old(self).head_all,
                self.nodes == old(self).nodes,
                self.ready_to_run_queue == old(self).ready_to_run_queue,
                k <= self.head_all@.len(),
                self.head_all@.contains(i),
                forall|j: int| 0 <= j < k ==> self.head_all@[j] != i,
            decreases self.head_all@.len() - k,
        {
            k = k + 1;
        }
        proof {
            if k >= self.head_all@.len() {
                let j = choose|j: int| 0 <= j < self.head_all@.len() && self.head_all@[j] == i;
                assert(false);
            }
        }
        let ghost before = self.head_all@;
        proof {
            before.index_of_first_ensures(i);
        }
        self.head_all.remove(k);
        assert(self.head_all@ =~= before.remove(k as int));
        assert forall|x: usize| self.head_all@.contains(x) <==> (before.contains(x) && x != i) by {
            if self.head_all@.contains(x) {
                let j = choose|j: int| 0 <= j < self.head_all@.len() && self.head_all@[j] == x;
                if j < k {
                    assert(before[j] == x);
                } else {
                    assert(before[j + 1] == x);
                }
            }
            if before.contains(x) && x != i {
                let j = choose|j: int| 0 <= j < before.len() && before[j] == x;
                if j < k {
                    assert(self.head_all@[j] == x);
                } else {
                    assert(j != k);
                    assert(self.head_all@[j - 1] == x);
                }
            }
        }
    }

    /// One run of the poll driver. Dequeues ready records, dropping those
    /// already released (left queued when they were finalized), until it
    /// finds a live one: that one leaves the all-list, its queued flag is
    /// cleared (so that a wakeup during its poll schedules it again), and its
    /// computation is handed out to be polled. Otherwise it reports the set
    /// exhausted, pending, or pending with a wakeup still being delivered.
    pub fn poll_next_step(&mut self) -> (r: Step<T>)
        requires
            old(self).wf(),
            idle(old(self).nodes()),
        ensures
            final(self).wf(),
            ({
                let q = old(self).queue();
                let k = released_prefix(q, old(self).nodes()) as int;
                &&& k <= q.len()
                &&& (q.len() == 0 && old(self).all().len() == 0 ==> r is Exhausted)
                &&& (old(self).all().len() > 0 ==> !(r is Exhausted))
                &&& (r is Pending ==> final(self).queue().len() == 0)
                &&& (r is Exhausted <==> (k == q.len() && old(self).all().len() == 0))
                &&& (r is Pending <==> (k == q.len() && old(self).all().len() > 0))
                &&& (r is PendingRewake <==> (k < q.len() && !q[k].linked))
                &&& (r is Poll <==> (k < q.len() && q[k].linked))
                &&& (r is Poll ==> {
                    let i = r->Poll_0;
                    &&& i == q[k].node
                    &&& i < old(self).nodes().len()
                    &&& old(self).all().contains(i)
                    &&& old(self).nodes()[i as int].phase == Phase::Linked
                    &&& old(self).nodes()[i as int].future == Some(r->Poll_1)
                    &&& final(self).nodes() == old(self).nodes().update(
                        i as int,
                        Node { future: None, phase: Phase::Polling, queued: false },
                    )
                    &&& final(self).all() == old(self).all().remove_value(i)
                    &&& final(self).queue() == q.subrange(k + 1, q.len() as int)
                })
                &&& (!(r is Poll) ==> {
                    &&& final(self).nodes() == old(self).nodes()
                    &&& final(self).all() == old(self).all()
                    &&& final(self).queue() == q.subrange(k, q.len() as int)
                })
            }),
    {
        let ghost q0 = self.ready_to_run_queue@;
        let ghost nodes0 = self.nodes@;
        let ghost k0 = released_prefix(q0, nodes0) as int;
        let ghost mut skipped: int = 0;
        proof {
            lemma_released_prefix_bound(q0, nodes0);
            assert(q0.subrange(0, q0.len() as int) =~= q0);
        }
        loop
            invariant
                self.wf(),
                self.nodes@ == nodes0,
                self.head_all == old(self).head_all,
                q0 == old(self).ready_to_run_queue@,
                nodes0 == old(self).nodes@,
                k0 == released_prefix(q0, nodes0),
                idle(nodes0),
                0 <= skipped <= k0 <= q0.len(),
                self.ready_to_run_queue@ == q0.subrange(skipped, q0.len() as int),
                released_prefix(self.ready_to_run_queue@, nodes0) == k0 - skipped,
            decreases self.ready_to_run_queue@.len(),
        {
            let ghost cur = self.ready_to_run_queue@;
            match self.ready_to_run_queue.dequeue() {
                Dequeue::Empty => {
                    if self.head_all.len() == 0 {
                        return Step::Exhausted;
                    } else {
                        return Step::Pending;
                    }
                },
                Dequeue::Inconsistent => {
                    assert(q0[k0] == cur[0]);
                    return Step::PendingRewake;
                },
                Dequeue::Data(i) => {
                    assert(self.nodes@.len() == self.nodes.len());
                    assert(cur[0].node < self.nodes@.len());
                    proof {
                        lemma_holds_drop_first(cur, i);
                    }
                    if self.nodes[i].future.is_none() {
                        proof {
                            assert(nodes0[i as int].phase == Phase::Released);
                            skipped = skipped + 1;
                            assert(self.ready_to_run_queue@ =~= q0.subrange(skipped, q0.len() as int));
                            assert forall|j: int| 0 <= j < self.nodes@.len() implies {
                                let n = #[trigger] self.nodes@[j];
                                n.phase != Phase::Released ==> (n.queued <==> holds(
                                    self.ready_to_run_queue@,
                                    j as usize,
                                ))
                            } by {
                                if j != i {
                                    lemma_holds_drop_first(cur, j as usize);
                                }
                            }
                        }
                        continue;
                    }
                    assert(q0[k0] == cur[0]);
                    assert(self.head_all@.contains(i));
                    let ghost all0 = self.head_all@;
                    self.unlink(i);
                    assert(!self.head_all@.contains(i));
                    let node = self.replace_node(
                        i,
                        Node { future: None, phase: Phase::Polling, queued: false },
                    );
                    proof {
                        assert(self.ready_to_run_queue@ =~= q0.subrange(k0 + 1, q0.len() as int));
                        assert forall|j: int| 0 <= j < self.nodes@.len() implies {
                            let n = #[trigger] self.nodes@[j];
                            &&& (n.phase == Phase::Linked <==> self.head_all@.contains(j as usize))
                            &&& (n.future is Some <==> n.phase == Phase::Linked)
                            &&& (n.phase == Phase::Released ==> n.queued)
                            &&& (n.phase != Phase::Released ==> (n.queued <==> holds(
                                self.ready_to_run_queue@,
                                j as usize,
                            )))
                        } by {
                            if j != i {
                                assert(self.head_all@.contains(j as usize) <==> all0.contains(j as usize));
                                assert(self.nodes@[j] == nodes0[j]);
                                lemma_holds_drop_first(cur, j as usize);
                            }
                        }
                        assert forall|k: int| 0 <= k < self.head_all@.len() implies (#[trigger] self.head_all@[k]) < self.nodes@.len() by {
                            assert(self.head_all@.contains(self.head_all@[k]));
                        }
                    }
                    match node.future {
                        Some(f) => {
                            return Step::Poll(i, f);
                        },
                        None => {
                            return vstd::pervasive::unreached();
                        },
                    }
                },
            }
        }
    }

    /// The computation of record `i` was polled and is still pending: it
    /// goes back into the all-list to wait for a wakeup.
    pub fn relink(&mut self, i: usize, future: T)
        requires
            old(self).wf(),
            i < old(self).nodes().len(),
            old(self).nodes()[i as int].phase == Phase::Polling,
        ensures
            final(self).wf(),
            final(self).nodes() == old(self).nodes().update(
                i as int,
                Node { future: Some(future), phase: Phase::Linked, queued: old(self).nodes()[i as int].queued },
            ),
            final(self).all() == seq![i] + old(self).all(),
            final(self).queue() == old(self).queue(),
    {
        proof {
            assert(self.nodes@.len() == self.nodes.len());
        }
        let queued = self.nodes[i].queued;
        self.replace_node(i, Node { future: Some(future), phase: Phase::Linked, queued });
        let ghost all0 = self.head_all@;
        self.link(i);
        proof {
            assert forall|j: int| 0 <= j < self.nodes@.len() implies {
                let n = #[trigger] self.nodes@[j];
                &&& (n.phase == Phase::Linked <==> self.head_all@.contains(j as usize))
            } by {
                if j != i {
                    assert(self.nodes@[j] == old(self).nodes@[j]);
                    if all0.contains(j as usize) {
                        let k = choose|k: int| 0 <= k < all0.len() && all0[k] == j as usize;
                        assert(self.head_all@[k + 1] == j as usize);
                    }
                    if self.head_all@.contains(j as usize) {
                        let k = choose|k: int| 0 <= k < self.head_all@.len() && self.head_all@[k] == j as usize;
                        assert(all0[k - 1] == j as usize);
                    }
                } else {
                    assert(self.head_all@[0] == i);
                }
            }
        }
    }

    /// Finalizes record `i` after its poll, whether its computation finished
    /// or aborted: the computation is dropped and the record never runs again.
    /// If the record is still in the ready-to-run queue, it stays there and
    /// is discarded when dequeued.
    pub fn release(&mut self, i: usize)
        requires
            old(self).wf(),
            i < old(self).nodes().len(),
            old(self).nodes()[i as int].phase == Phase::Polling,
        ensures
            final(self).wf(),
            final(self).nodes() == old(self).nodes().update(
                i as int,
                Node { future: None, phase: Phase::Released, queued: true },
            ),
            final(self).all() == old(self).all(),
            final(self).queue() == old(self).queue(),
    {
        self.replace_node(i, Node { future: None, phase: Phase::Released, queued: true });
        proof {
            assert forall|j: int| 0 <= j < self.nodes@.len() && j != i implies self.nodes@[j] == old(self).nodes@[j] by {}
        }
    }

    /// First half of a wakeup of record `i`: if the record is not queued
    /// yet, it is marked queued and takes the newest position in the
    /// ready-to-run queue; returns whether it did. A record that is queued
    /// already (or released) is left alone, so that it is never queued twice.
    pub fn begin_wake(&mut self, i: usize) -> (r: bool)
        requires
            old(self).wf(),
            i < old(self).nodes().len(),
        ensures
            final(self).wf(),
            r == !old(self).nodes()[i as int].queued,
            final(self).all() == old(self).all(),
            r ==> final(self).nodes() == old(self).nodes().update(
                i as int,
                Node { queued: true, ..old(self).nodes()[i as int] },
            ),
            r ==> final(self).queue() == old(self).queue().push(Slot { node: i, linked: false }),
            !r ==> final(self).nodes() == old(self).nodes() && final(self).queue() == old(self).queue(),
    {
        if self.nodes[i].queued {
            return false;
        }
        proof {
            assert(self.nodes@.len() == self.nodes.len());
        }
        self.nodes[i].queued = true;
        self.ready_to_run_queue.claim(i);
        proof {
            let q0 = old(self).ready_to_run_queue@;
            assert(self.nodes@ =~= old(self).nodes@.update(i as int, Node { queued: true, ..old(self).nodes@[i as int] }));
            assert forall|j: int| 0 <= j < self.nodes@.len() implies {
                let n = #[trigger] self.nodes@[j];
                n.phase != Phase::Released ==> (n.queued <==> holds(self.ready_to_run_queue@, j as usize))
            } by {
                lemma_holds_push(q0, Slot { node: i, linked: false }, j as usize);
            }
            assert forall|k: int| 0 <= k < self.ready_to_run_queue@.len() implies (#[trigger] self.ready_to_run_queue@[k]).node < self.nodes@.len() by {
                if k < q0.len() {
                    assert(self.ready_to_run_queue@[k] == q0[k]);
                }
            }
        }
        true
    }

    /// Second half of a wakeup of record `i`: the link to its position is
    /// written, so that the poll driver can reach it.
    pub fn end_wake(&mut self, i: usize)
        requires
            old(self).wf(),
            holds(old(self).queue(), i),
        ensures
            final(self).wf(),
            final(self).nodes() == old(self).nodes(),
            final(self).all() == old(self).all(),
            final(self).queue().len() == old(self).queue().len(),
            forall|k: int| 0 <= k < old(self).queue().len() ==> (#[trigger] final(self).queue()[k]) == (
                if old(self).queue()[k].node == i {
                    Slot { node: i, linked: true }
                } else {
                    old(self).queue()[k]
                }),
    {
        self.ready_to_run_queue.publish(i);
        proof {
            let q0 = old(self).ready_to_run_queue@;
            assert forall|j: int| 0 <= j < self.nodes@.len() implies {
                let n = #[trigger] self.nodes@[j];
                n.phase != Phase::Released ==> (n.queued <==> holds(self.ready_to_run_queue@, j as usize))
            } by {
                lemma_holds_publish(q0, self.ready_to_run_queue@, j as usize);
            }
            assert forall|k: int| 0 <= k < self.ready_to_run_queue@.len() implies (#[trigger] self.ready_to_run_queue@[k]).node < self.nodes@.len() by {
                assert(self.ready_to_run_queue@[k].node == q0[k].node);
            }
        }
    }

    /// Wakes record `i`: both halves at once. Waking a record that is
    /// queued already, or released, changes nothing.
    pub fn wake(&mut self, i: usize)
        requires
            old(self).wf(),
            i < old(self).nodes().len(),
        ensures
            final(self).wf(),
            final(self).all() == old(self).all(),
            old(self).nodes()[i as int].queued ==> final(self).nodes() == old(self).nodes()
                && final(self).queue() == old(self).queue(),
            !old(self).nodes()[i as int].queued ==> final(self).nodes() == old(self).nodes().update(
                i as int,
                Node { queued: true, ..old(self).nodes()[i as int] },
            ) && final(self).queue() == old(self).queue().push(Slot { node: i, linked: true }),
    {
        if self.begin_wake(i) {
            let ghost q1 = self.ready_to_run_queue@;
            assert(q1[q1.len() - 1].node == i);
            self.end_wake(i);
            proof {
                let q0 = old(self).ready_to_run_queue@;
                assert forall|k: int| 0 <= k < q0.len() implies q0[k].node != i by {
                    if q0[k].node == i {
                        assert(holds(q0, i));
                    }
                }
                assert(self.ready_to_run_queue@ =~= q0.push(Slot { node: i, linked: true }));
            }
        }
    }

    /// Tears the set down: every linked member is taken out of the all-list
    /// and released, dropping (cancelling) its computation. Records still in
    /// the ready-to-run queue stay there without a computation, and a later
    /// wakeup of any released record changes nothing.
    pub fn cancel_all(&mut self)
        requires
            old(self).wf(),
        ensures
            final(self).wf(),
            final(self).all() == Seq::<usize>::empty(),
            final(self).queue() == old(self).queue(),
            final(self).nodes().len() == old(self).nodes().len(),
            forall|j: int|
                0 <= j < old(self).nodes().len() ==> (#[trigger] final(self).nodes()[j]) == (
                    if old(self).nodes()[j].phase == Phase::Linked {
                        Node { future: None, phase: Phase::Released, queued: true }
                    } else {
                        old(self).nodes()[j]
                    }),
    {
        assert(self.nodes@.len() == self.nodes.len());
        while self.head_all.len() > 0
            invariant
                self.wf(),
                self.nodes@.len() == old(self).nodes@.len(),
                self.nodes@.len() <= usize::MAX,
                self.ready_to_run_queue == old(self).ready_to_run_queue,
                forall|j: int|
                    0 <= j < old(self).nodes@.len() ==> (#[trigger] self.nodes@[j]) == (
                        if old(self).nodes@[j].phase == Phase::Linked && !self.head_all@.contains(j as usize) {
                            Node { future: None, phase: Phase::Released, queued: true }
                        } else {
                            old(self).nodes@[j]
                        }),
            decreases self.head_all@.len(),
        {
            let i = self.head_all[0];
            let ghost all0 = self.head_all@;
            let ghost nodes0 = self.nodes@;
            assert(all0.contains(i));
            self.unlink(i);
            self.replace_node(i, Node { future: None, phase: Phase::Released, queued: true });
            proof {
                all0.index_of_first_ensures(i);
                assert forall|j: int| 0 <= j < self.nodes@.len() implies {
                    let n = #[trigger] self.nodes@[j];
                    &&& (n.phase == Phase::Linked <==> self.head_all@.contains(j as usize))
                    &&& (n.future is Some <==> n.phase == Phase::Linked)
                    &&& (n.phase == Phase::Released ==> n.queued)
                    &&& (n.phase != Phase::Released ==> (n.queued <==> holds(
                        self.ready_to_run_queue@,
                        j as usize,
                    )))
                } by {
                    assert(self.head_all@.contains(j as usize) <==> (all0.contains(j as usize) && j as usize != i));
                    if j != i {
                        assert(self.nodes@[j] == nodes0[j]);
                    }
                }
                assert forall|j: int|
                    0 <= j < old(self).nodes@.len() implies (#[trigger] self.nodes@[j]) == (
                        if old(self).nodes@[j].phase == Phase::Linked && !self.head_all@.contains(j as usize) {
                            Node { future: None, phase: Phase::Released, queued: true }
                        } else {
                            old(self).nodes@[j]
                        }) by {
                    assert(self.head_all@.contains(j as usize) <==> (all0.contains(j as usize) && j as usize != i));
                    if j != i {
                        assert(self.nodes@[j] == nodes0[j]);
                    }
                }
                assert forall|k: int| 0 <= k < self.head_all@.len() implies (#[trigger] self.head_all@[k]) < self.nodes@.len() by {
                    assert(self.head_all@.contains(self.head_all@[k]));
                }
            }
        }
        proof {
            assert(self.head_all@ =~= Seq::<usize>::empty());
            assert forall|j: int|
                0 <= j < old(self).nodes@.len() implies (#[trigger] self.nodes@[j]) == (
                    if old(self).nodes@[j].phase == Phase::Linked {
                        Node { future: None, phase: Phase::Released, queued: true }
                    } else {
                        old(self).nodes@[j]
                    }) by {
                assert(!self.head_all@.contains(j as usize));
            }
        }
    }

    /// Builds a set from a list of computations, as pushing them one by one
    /// would: record `j` holds the `j`-th computation, and all of them are
    /// queued for a first poll in list order.
    pub fn from_vec(futures: Vec<T>) -> (r: Self)
        ensures
            r.wf(),
            r.nodes().len() == futures@.len(),
            r.all() == Seq::new(futures@.len(), |j: int| (futures@.len() - 1 - j) as usize),
            r.queue() == Seq::new(futures@.len(), |j: int| Slot { node: j as usize, linked: true }),
            forall|j: int|
                0 <= j < futures@.len() ==> (#[trigger] r.nodes()[j]) == (Node {
                    future: Some(futures@[j]),
                    phase: Phase::Linked,
                    queued: true,
                }),
    {
        let mut set = FuturesUnordered::new();
        let mut rest = futures;
        let ghost done: int = 0;
        while rest.len() > 0
            invariant
                set.wf(),
                0 <= done <= futures@.len(),
                rest@ == futures@.subrange(done, futures@.len() as int),
                set.nodes().len() == done,
                set.all() == Seq::new(done as nat, |j: int| (done - 1 - j) as usize),
                set.queue() == Seq::new(done as nat, |j: int| Slot { node: j as usize, linked: true }),
                forall|j: int|
                    0 <= j < done ==> (#[trigger] set.nodes()[j]) == (Node {
                        future: Some(futures@[j]),
                        phase: Phase::Linked,
                        queued: true,
                    }),
            decreases rest@.len(),
        {
            let f = rest.remove(0);
            let ghost before = set.nodes();
            let ghost q_before = set.queue();
            set.push(f);
            proof {
                assert(f == futures@[done]);
                assert(set.queue() =~= Seq::new((done + 1) as nat, |j: int| Slot { node: j as usize, linked: true }));
                assert(set.all() =~= Seq::new((done + 1) as nat, |j: int| (done - j) as usize));
                assert forall|j: int| 0 <= j < done + 1 implies (#[trigger] set.nodes()[j]) == (Node {
                    future: Some(futures@[j]),
                    phase: Phase::Linked,
                    queued: true,
                }) by {
                    if j < done {
                        assert(set.nodes()[j] == before[j]);
                    }
                }
                done = done + 1;
                assert(rest@ =~= futures@.subrange(done, futures@.len() as int));
            }
        }
        proof {
            assert(done == futures@.len());
        }
        set
    }

    /// The records of the members, in all-list order (newest first); each
    /// one's computation can be reached in place through `future_mut`.
    pub fn members(&self) -> (r: Vec<usize>)
        requires
            self.wf(),
        ensures
            r@ == self.all(),
            r@.no_duplicates(),
    {
        let mut r: Vec<usize> = Vec::new();
        let mut k: usize = 0;
        while k < self.head_all.len()
            invariant
                k <= self.head_all@.len(),
                r@ == self.head_all@.subrange(0, k as int),
            decreases self.head_all@.len() - k,
        {
            r.push(self.head_all[k]);
            k = k + 1;
            assert(r@ =~= self.head_all@.subrange(0, k as int));
        }
        assert(r@ =~= self.head_all@);
        r
    }

    /// In-place access to the computation of member `i`, which stays in the
    /// set.
    pub fn future_mut(&mut self, i: usize) -> (r: &mut T)
        requires
            old(self).wf(),
            old(self).all().contains(i),
        ensures
            final(self).wf(),
            *r == old(self).nodes()[i as int].future->Some_0,
            final(self).nodes() == old(self).nodes().update(
                i as int,
                Node { future: Some(*final(r)), ..old(self).nodes()[i as int] },
            ),
            final(self).all() == old(self).all(),
            final(self).queue() == old(self).queue(),
    {
        proof {
            lemma_members_are_live(self, i);
        }
        let node = &mut self.nodes[i];
        match node.future.as_mut() {
            Some(f) => f,
            None => vstd::pervasive::unreached(),
        }
    }
}

impl<T> Default for FuturesUnordered<T> {
    /// An empty set, as `new` makes.
    fn default() -> (r: Self)
        ensures
            r.wf(),
            r.nodes() == Seq::<Node<T>>::empty(),
            r.all() == Seq::<usize>::empty(),
            r.queue() == Seq::<Slot>::empty(),
    {
        FuturesUnordered::new()
    }
}

/// The structure every well-formed set keeps: no member is listed twice,
/// and every listed or queued index names a record.
pub proof fn lemma_structure<T>(s: &FuturesUnordered<T>)
    requires
        s.wf(),
    ensures
        s.all().no_duplicates(),
        forall|k: int| 0 <= k < s.all().len() ==> (#[trigger] s.all()[k]) < s.nodes().len(),
        forall|k: int| 0 <= k < s.queue().len() ==> (#[trigger] s.queue()[k]).node < s.nodes().len(),
        forall|i: int|
            0 <= i < s.nodes().len() ==> ((#[trigger] s.nodes()[i]).phase == Phase::Linked
                <==> s.all().contains(i as usize)),
{
}

/// A released record is final: it holds no computation and stays marked
/// queued, so no wakeup schedules it again and the poll driver, meeting it
/// in the queue, discards it. Hence a computation's value is delivered by at
/// most one poll.
pub proof fn lemma_release_is_final<T>(s: &FuturesUnordered<T>, i: int)
    requires
        s.wf(),
        0 <= i < s.nodes().len(),
        s.nodes()[i].phase == Phase::Released,
    ensures
        s.nodes()[i].queued,
        s.nodes()[i].future is None,
        !s.all().contains(i as usize),
{
}

/// A wakeup is never lost: a live record marked queued is in the
/// ready-to-run queue, where the poll driver will reach it.
pub proof fn lemma_woken_is_scheduled<T>(s: &FuturesUnordered<T>, i: int)
    requires
        s.wf(),
        0 <= i < s.nodes().len(),
        s.nodes()[i].queued,
        s.nodes()[i].phase != Phase::Released,
    ensures
        holds(s.queue(), i as usize),
{
}

/// However many wakeups race on one record, it occupies at most one
/// position of the ready-to-run queue.
pub proof fn lemma_queued_once<T>(s: &FuturesUnordered<T>)
    requires
        s.wf(),
    ensures
        distinct_nodes(s.queue()),
{
}

/// Every member of the all-list is a live record holding its computation.
pub proof fn lemma_members_are_live<T>(s: &FuturesUnordered<T>, i: usize)
    requires
        s.wf(),
        s.all().contains(i),
    ensures
        i < s.nodes().len(),
        s.nodes()[i as int].phase == Phase::Linked,
        s.nodes()[i as int].future is Some,
{
    let k = choose|k: int| 0 <= k < s.all().len() && s.all()[k] == i;
    assert(s.all()[k] < s.nodes().len());
}

} // verus!
