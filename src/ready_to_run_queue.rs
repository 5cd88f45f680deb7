use vstd::prelude::*;

verus! {

/// Outcome of one `dequeue` on the ready-to-run queue.
#[derive(PartialEq, Eq, Structural, Debug, Clone, Copy)]
pub enum Dequeue {
    /// Nothing has been scheduled.
    Empty,
    /// A producer has swapped itself in but has not yet written the link
    /// that makes it reachable from the consumer's end.
    Inconsistent,
    /// The record with this index was scheduled and is now handed out.
    Data(usize),
}

/// One position of the queue: the record scheduled there, and whether the
/// producer that put it there has finished writing the link to it.
#[derive(PartialEq, Eq, Structural, Debug, Clone, Copy)]
pub struct Slot {
    pub node: usize,
    pub linked: bool,
}

/// The multi-producer / single-consumer queue of records that asked to be
/// polled again. Producers insert in two steps (claim a position, then
/// publish the link to it); the consumer only ever looks at the oldest
/// position, and can see a claimed but not yet published one.
pub struct ReadyToRunQueue {
    slots: Vec<Slot>,
    /// Positions before this one were already handed out.
    head: usize,
}

/// Whether `node` occupies one of the positions of `q`.
pub open spec fn holds(q: Seq<Slot>, node: usize) -> bool {
    exists|k: int| 0 <= k < q.len() && (#[trigger] q[k]).node == node
}

/// No record occupies two positions.
pub open spec fn distinct_nodes(q: Seq<Slot>) -> bool {
    forall|j: int, k: int|
        0 <= j < q.len() && 0 <= k < q.len() && j != k ==> (#[trigger] q[j]).node != (#[trigger] q[k]).node
}

/// Dropping the oldest position leaves every other record where it was.
pub proof fn lemma_holds_drop_first(q: Seq<Slot>, node: usize)
    requires
        q.len() > 0,
        distinct_nodes(q),
    ensures
        holds(q.drop_first(), node) <==> (holds(q, node) && q[0].node != node),
        distinct_nodes(q.drop_first()),
{
    if holds(q.drop_first(), node) {
        let k = choose|k: int| 0 <= k < q.drop_first().len() && (#[trigger] q.drop_first()[k]).node == node;
        assert(q[k + 1] == q.drop_first()[k]);
        assert(q[0].node != q[k + 1].node);
    }
    if holds(q, node) && q[0].node != node {
        let k = choose|k: int| 0 <= k < q.len() && (#[trigger] q[k]).node == node;
        assert(q.drop_first()[k - 1] == q[k]);
    }
    assert forall|j: int, k: int|
        0 <= j < q.drop_first().len() && 0 <= k < q.drop_first().len() && j != k implies (#[trigger] q.drop_first()[j]).node
            != (#[trigger] q.drop_first()[k]).node by {
        assert(q[j + 1].node != q[k + 1].node);
    }
}

/// A new position holds its record, and keeps every other where it was.
pub proof fn lemma_holds_push(q: Seq<Slot>, s: Slot, node: usize)
    ensures
        holds(q.push(s), node) <==> (holds(q, node) || s.node == node),
{
    if holds(q.push(s), node) {
        let k = choose|k: int| 0 <= k < q.push(s).len() && (#[trigger] q.push(s)[k]).node == node;
        if k < q.len() {
            assert(q[k] == q.push(s)[k]);
        }
    }
    if holds(q, node) {
        let k = choose|k: int| 0 <= k < q.len() && (#[trigger] q[k]).node == node;
        assert(q[k] == q.push(s)[k]);
    }
    if s.node == node {
        assert(q.push(s)[q.len() as int] == s);
    }
}

/// Publishing a position changes no record's membership.
pub proof fn lemma_holds_publish(q: Seq<Slot>, p: Seq<Slot>, node: usize)
    requires
        p.len() == q.len(),
        forall|k: int| 0 <= k < q.len() ==> (#[trigger] p[k]).node == q[k].node,
    ensures
        holds(p, node) <==> holds(q, node),
{
    if holds(p, node) {
        let k = choose|k: int| 0 <= k < p.len() && (#[trigger] p[k]).node == node;
        assert(q[k].node == node);
    }
    if holds(q, node) {
        let k = choose|k: int| 0 <= k < q.len() && (#[trigger] q[k]).node == node;
        assert(p[k].node == node);
    }
}

impl View for ReadyToRunQueue {
    type V = Seq<Slot>;

    closed spec fn view(&self) -> Seq<Slot> {
        self.slots@.subrange(self.head as int, self.slots@.len() as int)
    }
}

impl ReadyToRunQueue {
    /// The handed-out mark lies within the positions.
    pub closed spec fn positions_in_range(&self) -> bool {
        self.head <= self.slots@.len()
    }

    pub open spec fn wf(&self) -> bool {
        &&& self.positions_in_range()
        &&& distinct_nodes(self@)
    }

    /// An empty queue.
    pub fn new() -> (r: Self)
        ensures
            r.wf(),
            r@ == Seq::<Slot>::empty(),
    {
        let r = ReadyToRunQueue { slots: Vec::new(), head: 0 };
        assert(r@ =~= Seq::<Slot>::empty());
        r
    }

    /// Number of claimed positions.
    pub fn len(&self) -> (r: usize)
        requires
            self.wf(),
        ensures
            r == self@.len(),
    {
        self.slots.len() - self.head
    }

    /// Whether `node` is scheduled (published or not).
    pub fn contains(&self, node: usize) -> (r: bool)
        requires
            self.wf(),
        ensures
            r == holds(self@, node),
    {
        let mut k: usize = self.head;
        while k < self.slots.len()
            invariant
                self.wf(),
                self.head <= k <= self.slots@.len(),
                forall|j: int| self.head <= j < k ==> (#[trigger] self.slots@[j]).node != node,
            decreases self.slots@.len() - k,
        {
            if self.slots[k].node == node {
                assert(self@[k - self.head] == self.slots@[k as int]);
                return true;
            }
            k = k + 1;
        }
        assert forall|j: int| 0 <= j < self@.len() implies (#[trigger] self@[j]).node != node by {
            assert(self@[j] == self.slots@[j + self.head]);
        }
        false
    }

    /// First step of an insertion: the producer takes the newest position.
    /// Until `publish` runs for it, the consumer cannot get past it.
    pub fn claim(&mut self, node: usize)
        requires
            old(self).wf(),
            !holds(old(self)@, node),
        ensures
            final(self).wf(),
            final(self)@ == old(self)@.push(Slot { node, linked: false }),
    {
        self.slots.push(Slot { node, linked: false });
        assert(self@ =~= old(self)@.push(Slot { node, linked: false }));
    }

    /// Second step of an insertion: the link to `node`'s position is written.
    pub fn publish(&mut self, node: usize)
        requires
            old(self).wf(),
            holds(old(self)@, node),
        ensures
            final(self).wf(),
            final(self)@.len() == old(self)@.len(),
            forall|k: int| 0 <= k < old(self)@.len() ==> (#[trigger] final(self)@[k]) == (
                if old(self)@[k].node == node {
                    Slot { node, linked: true }
                } else {
                    old(self)@[k]
                }),
    {
        let mut k: usize = self.head;
        while k < self.slots.len()
            invariant
                self.wf(),
                self.head <= k <= self.slots@.len(),
                self.slots == old(self).slots,
                self.head == old(self).head,
                forall|j: int| self.head <= j < k ==> (#[trigger] self.slots@[j]).node != node,
            decreases self.slots@.len() - k,
        {
            if self.slots[k].node == node {
                let ghost h = self.head as int;
                self.slots.set(k, Slot { node, linked: true });
                assert forall|j: int| 0 <= j < old(self)@.len() && j != k - h implies old(self)@[j].node
                    != node by {
                    assert(old(self)@[j].node != old(self)@[k - h].node);
                }
                assert forall|j: int| 0 <= j < old(self)@.len() implies (#[trigger] self@[j]) == (
                    if old(self)@[j].node == node {
                        Slot { node, linked: true }
                    } else {
                        old(self)@[j]
                    }) by {
                    assert(self@[j] == self.slots@[j + h]);
                    assert(old(self)@[j] == old(self).slots@[j + h]);
                }
                assert forall|a: int, b: int|
                    0 <= a < self@.len() && 0 <= b < self@.len() && a != b implies (#[trigger] self@[a]).node
                        != (#[trigger] self@[b]).node by {
                    assert(old(self)@[a].node != old(self)@[b].node);
                }
                return;
            }
            k = k + 1;
        }
    }

    /// A whole insertion, both steps at once.
    pub fn enqueue(&mut self, node: usize)
        requires
            old(self).wf(),
            !holds(old(self)@, node),
        ensures
            final(self).wf(),
            final(self)@ == old(self)@.push(Slot { node, linked: true }),
    {
        self.slots.push(Slot { node, linked: true });
        assert(self@ =~= old(self)@.push(Slot { node, linked: true }));
    }

    /// Takes the oldest published record. Must only be run by the single
    /// consumer.
    pub fn dequeue(&mut self) -> (r: Dequeue)
        requires
            old(self).wf(),
        ensures
            final(self).wf(),
            old(self)@.len() == 0 ==> r == Dequeue::Empty && final(self)@ == old(self)@,
            old(self)@.len() > 0 && !old(self)@[0].linked ==> r == Dequeue::Inconsistent
                && final(self)@ == old(self)@,
            old(self)@.len() > 0 && old(self)@[0].linked ==> r == Dequeue::Data(old(self)@[0].node)
                && final(self)@ == old(self)@.drop_first(),
    {
        if self.head == self.slots.len() {
            return Dequeue::Empty;
        }
        assert(self@[0] == self.slots@[self.head as int]);
        if !self.slots[self.head].linked {
            return Dequeue::Inconsistent;
        }
        let first = self.slots[self.head].node;
        self.head = self.head + 1;
        if self.head == self.slots.len() {
            // Drained: the handed-out positions are reclaimed.
            self.slots.clear();
            self.head = 0;
        }
        assert(self@ =~= old(self)@.drop_first());
        proof {
            lemma_holds_drop_first(old(self)@, first);
        }
        Dequeue::Data(first)
    }
}

} // verus!
